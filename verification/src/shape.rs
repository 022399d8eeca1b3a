//! Shapes of runtime values and their byte layout.
//!
//! A value is a scalar of one machine word, a tuple whose fields lie packed one
//! after another, or an array header: one word per dimension followed by the
//! address of the element block.

use vstd::prelude::*;

verus! {

/// Bytes in a machine word.
pub const WORD_SIZE: usize = 8;

/// The mathematical shape of a value: what a [`Type`] stands for.
pub enum Shape {
    Tuple(Seq<Shape>),
    Array(Box<Shape>, u8),
    Int,
    Float,
    Void,
    Bool,
}

impl Shape {
    /// Bytes that a value of this shape occupies where it is stored. An array
    /// counts its header only: the element block lies elsewhere.
    pub open spec fn size(self) -> nat
        decreases self, 0nat,
    {
        match self {
            Shape::Tuple(fields) => Shape::prefix_size(fields, fields.len()),
            Shape::Array(_, rank) => 8 + 8 * (rank as nat),
            Shape::Int | Shape::Float | Shape::Void | Shape::Bool => 8,
        }
    }

    /// Bytes taken by the first `k` of `fields`: the offset of field `k` in a tuple.
    pub open spec fn prefix_size(fields: Seq<Shape>, k: nat) -> nat
        decreases fields, k,
    {
        if k == 0 || k > fields.len() {
            0
        } else {
            Shape::prefix_size(fields, (k - 1) as nat) + fields[k - 1].size()
        }
    }

    /// The offsets of a tuple's fields never decrease.
    pub proof fn lemma_prefix_size_monotonic(fields: Seq<Shape>, j: nat, k: nat)
        requires
            j <= k <= fields.len(),
        ensures
            Shape::prefix_size(fields, j) <= Shape::prefix_size(fields, k),
        decreases k,
    {
        if j < k {
            Shape::lemma_prefix_size_monotonic(fields, j, (k - 1) as nat);
        }
    }

    /// The offsets within a tuple depend only on the fields before them.
    pub proof fn lemma_prefix_size_push(fields: Seq<Shape>, last: Shape, k: nat)
        requires
            k <= fields.len(),
        ensures
            Shape::prefix_size(fields.push(last), k) == Shape::prefix_size(fields, k),
        decreases k,
    {
        if k > 0 {
            Shape::lemma_prefix_size_push(fields, last, (k - 1) as nat);
        }
    }

    /// A tuple is as large as its parts: the size of the fields `a` followed by
    /// the fields `b` is the sum of the sizes of the two tuples.
    pub proof fn lemma_size_concat(a: Seq<Shape>, b: Seq<Shape>)
        ensures
            Shape::Tuple(a + b).size() == Shape::Tuple(a).size() + Shape::Tuple(b).size(),
        decreases b.len(),
    {
        if b.len() == 0 {
            assert(a + b =~= a);
        } else {
            let b0 = b.drop_last();
            Shape::lemma_size_concat(a, b0);
            assert((a + b0).push(b.last()) =~= a + b);
            assert(b0.push(b.last()) =~= b);
            Shape::lemma_prefix_size_push(a + b0, b.last(), (a + b0).len());
            Shape::lemma_prefix_size_push(b0, b.last(), b0.len());
        }
    }
}

/// The shape of a runtime value, as a descriptor names it.
#[derive(Debug, PartialEq, Eq)]
pub enum Type {
    /// Fields in declaration order, packed without padding.
    Tuple(Vec<Type>),
    /// Element shape and rank (number of dimensions). An array of rank 0 has
    /// no dimension and holds one element.
    Array(Box<Type>, u8),
    Int,
    Float,
    Void,
    Bool,
}

impl View for Type {
    type V = Shape;

    open spec fn view(&self) -> Shape {
        self.shape()
    }
}

impl Type {
    /// The shape that this type stands for.
    pub open spec fn shape(&self) -> Shape
        decreases self,
    {
        match self {
            Type::Tuple(fields) => Shape::Tuple(Type::shapes(fields@)),
            Type::Array(element, rank) => Shape::Array(Box::new(element.shape()), *rank),
            Type::Int => Shape::Int,
            Type::Float => Shape::Float,
            Type::Void => Shape::Void,
            Type::Bool => Shape::Bool,
        }
    }

    /// The shapes that a sequence of types stands for, one for one.
    pub open spec fn shapes(types: Seq<Type>) -> Seq<Shape>
        decreases types,
    {
        if types.len() == 0 {
            Seq::empty()
        } else {
            Type::shapes(types.drop_last()).push(types.last().shape())
        }
    }

    /// `shapes` keeps the length and the order.
    pub proof fn lemma_shapes_index(types: Seq<Type>)
        ensures
            Type::shapes(types).len() == types.len(),
            forall|i: int| 0 <= i < types.len() ==> (#[trigger] Type::shapes(types)[i]) == types[i]@,
        decreases types.len(),
    {
        if types.len() > 0 {
            Type::lemma_shapes_index(types.drop_last());
        }
    }

    /// `shapes` of one more type is one more shape.
    pub proof fn lemma_shapes_push(types: Seq<Type>, last: Type)
        ensures
            Type::shapes(types.push(last)) == Type::shapes(types).push(last@),
    {
        assert(types.push(last).drop_last() =~= types);
    }

    /// The byte size of a value of this type, or `None` where that size is more
    /// than a `usize` holds.
    pub fn size(&self) -> (n: Option<usize>)
        ensures
            n == (if self@.size() <= usize::MAX {
                Some(self@.size() as usize)
            } else {
                None
            }),
        decreases self,
    {
        match self {
            Type::Int | Type::Float | Type::Bool | Type::Void => Some(WORD_SIZE),
            Type::Array(_, rank) => {
                let r: usize = *rank as usize;
                Some(WORD_SIZE + WORD_SIZE * r)
            },
            Type::Tuple(fields) => {
                let ghost shapes = Type::shapes(fields@);
                proof {
                    Type::lemma_shapes_index(fields@);
                }
                let mut total: usize = 0;
                let mut i: usize = 0;
                while i < fields.len()
                    invariant
                        i <= fields.len(),
                        *self == Type::Tuple(*fields),
                        self@ == Shape::Tuple(shapes),
                        shapes.len() == fields.len(),
                        forall|j: int| 0 <= j < fields.len() ==> shapes[j] == fields[j]@,
                        total == Shape::prefix_size(shapes, i as nat),
                    decreases fields.len() - i,
                {
                    match fields[i].size() {
                        None => {
                            proof {
                                Shape::lemma_prefix_size_monotonic(
                                    shapes,
                                    (i + 1) as nat,
                                    shapes.len(),
                                );
                            }
                            return None;
                        },
                        Some(s) => {
                            if s > usize::MAX - total {
                                proof {
                                    Shape::lemma_prefix_size_monotonic(
                                        shapes,
                                        (i + 1) as nat,
                                        shapes.len(),
                                    );
                                }
                                return None;
                            }
                            total = total + s;
                        },
                    }
                    i = i + 1;
                }
                Some(total)
            },
        }
    }
}

} // verus!
