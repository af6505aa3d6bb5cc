//! The vector index of one segment: `turbovec::IdMapIndex`, of which this library
//! knows its dimension and bit width, which ids it holds, and that each has a stored
//! vector.
//!
//! Encoding and scoring vectors is that crate's work and is not described here.
//! Each function below makes one call into it; its contract says what the call
//! does to the shape, the ids and their vectors.
use turbovec::IdMapIndex;
use vstd::prelude::*;

verus! {

/// A quantized vector index addressed by external ids.
#[verifier::external_type_specification]
#[verifier::external_body]
pub struct ExIdMapIndex(IdMapIndex);

/// Why bytes were not accepted as the image of a vector index.
#[verifier::external_type_specification]
#[verifier::external_body]
pub struct ExIoError(std::io::Error);

/// What a vector index holds: each external id with its encoded vector.
pub uninterp spec fn index_vectors(index: IdMapIndex) -> Map<u64, Seq<u8>>;

/// The shape of a vector index: the dimension of its vectors, 0 where none is fixed
/// yet, and its bit width.
pub uninterp spec fn index_shape(index: IdMapIndex) -> (usize, usize);

/// The shape and the vectors of the index of which these bytes are an image, where
/// they are one.
pub uninterp spec fn image_content(image: Seq<u8>) -> Option<
    ((usize, usize), Map<u64, Seq<u8>>),
>;

/// The shape and the vectors of a vector index.
pub type Content = ((usize, usize), Map<u64, Seq<u8>>);

/// All that is known of a vector index: its shape and its vectors.
pub open spec fn index_content(index: IdMapIndex) -> Content {
    (index_shape(index), index_vectors(index))
}

/// The external ids that a vector index holds.
pub open spec fn index_ids(index: IdMapIndex) -> Set<u64> {
    index_vectors(index).dom()
}

/// Why an index could not be constructed.
#[derive(Debug, Clone, Copy, PartialEq, Eq, Structural)]
pub enum ConstructError {
    /// The bit width must be 2, 3 or 4.
    BitWidthOutOfRange(usize),
    /// The dimension must be a positive multiple of 8.
    DimNotPositiveMultipleOf8(usize),
    /// The dimension exceeds the largest one that is supported.
    DimTooLarge {
        /// The dimension asked for.
        dim: usize,
        /// The largest supported dimension.
        max: usize,
    },
    /// A reason that this library does not know.
    Other,
}

/// What is wrong with a dimension and a bit width, if anything is.
pub open spec fn construct_error(dim: usize, bit_width: usize) -> Option<ConstructError> {
    if !(2 <= bit_width <= 4) {
        Some(ConstructError::BitWidthOutOfRange(bit_width))
    } else if dim == 0 || dim % 8 != 0 {
        Some(ConstructError::DimNotPositiveMultipleOf8(dim))
    } else if dim > 16384 {
        Some(ConstructError::DimTooLarge { dim, max: 16384 })
    } else {
        None
    }
}

/// Calls `turbovec::IdMapIndex::new`. It succeeds, with an empty index of this
/// dimension and bit width, exactly on a bit width of 2, 3 or 4 and a dimension that
/// is a positive multiple of 8 up to 16384, and otherwise reports the first of these
/// that does not hold.
#[verifier::external_body]
pub(crate) fn new_index(dim: usize, bit_width: usize) -> (r: Result<IdMapIndex, ConstructError>)
    ensures
        match r {
            Ok(index) => {
                &&& construct_error(dim, bit_width) is None
                &&& index_shape(index) == (dim, bit_width)
                &&& index_vectors(index) == Map::<u64, Seq<u8>>::empty()
            },
            Err(e) => construct_error(dim, bit_width) == Some(e),
        },
{
    match IdMapIndex::new(dim, bit_width) {
        Ok(index) => Ok(index),
        Err(turbovec::ConstructError::BitWidthOutOfRange(b)) => Err(
            ConstructError::BitWidthOutOfRange(b),
        ),
        Err(turbovec::ConstructError::DimNotPositiveMultipleOf8(d)) => Err(
            ConstructError::DimNotPositiveMultipleOf8(d),
        ),
        Err(turbovec::ConstructError::DimTooLarge { dim, max }) => Err(
            ConstructError::DimTooLarge { dim, max },
        ),
        Err(_) => Err(ConstructError::Other),
    }
}

/// Calls `turbovec::IdMapIndex::len`: the number of ids held.
#[verifier::external_body]
pub(crate) fn index_len(index: &IdMapIndex) -> (n: usize)
    ensures
        n == index_ids(*index).len(),
{
    index.len()
}

/// Calls `turbovec::IdMapIndex::is_empty`: whether no id is held.
#[verifier::external_body]
pub(crate) fn index_is_empty(index: &IdMapIndex) -> (r: bool)
    ensures
        r == (index_ids(*index) == Set::<u64>::empty()),
{
    index.is_empty()
}

/// Calls `turbovec::IdMapIndex::remove`: it takes the id out with its vector and
/// says whether it was there. The other ids keep their vectors, and the index its
/// shape.
#[verifier::external_body]
pub(crate) fn index_remove(index: &mut IdMapIndex, id: u64) -> (removed: bool)
    ensures
        removed == index_ids(*old(index)).contains(id),
        index_vectors(*final(index)) == index_vectors(*old(index)).remove(id),
        index_shape(*final(index)) == index_shape(*old(index)),
{
    index.remove(id)
}

/// Calls `turbovec::IdMapIndex::prepare`, which builds the index's search caches
/// ahead of its next search. Nothing that is stated of an index depends on them.
#[verifier::external_body]
pub(crate) fn index_prepare(index: &IdMapIndex) {
    index.prepare()
}

/// Calls `turbovec::IdMapIndex::to_bytes`: an image of the index, from which an
/// index of the same shape, with the same ids and vectors, can be read back.
#[verifier::external_body]
pub(crate) fn index_to_image(index: &IdMapIndex) -> (image: Vec<u8>)
    ensures
        image_content(image@) == Some(index_content(*index)),
{
    index.to_bytes()
}

/// Calls `turbovec::IdMapIndex::from_bytes`: it reads an index back from its
/// image, with the shape, the ids and the vectors that the image holds, and reports an
/// error exactly on bytes that are not the image of an index.
#[verifier::external_body]
pub(crate) fn index_from_image(image: &[u8]) -> (r: Result<IdMapIndex, std::io::Error>)
    ensures
        match r {
            Ok(index) => image_content(image@) == Some(index_content(index)),
            Err(_) => image_content(image@) is None,
        },
{
    IdMapIndex::from_bytes(image)
}

} // verus!
