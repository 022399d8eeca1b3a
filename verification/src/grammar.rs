//! The grammar of type descriptors, stated as what a text must hold to be a
//! type expression, and the proof that the parser accepts exactly that.
//!
//! ```text
//! TypeExpr := '(' blank TypeBody blank ')'
//! TypeBody := 'IntType' | 'FloatType' | 'BoolType' | 'VoidType'
//!           | 'TupleType' (blank TypeExpr)*
//!           | 'ArrayType' blank TypeExpr blank Rank
//! Rank     := one or more decimal digits that stand for at most 255
//! blank    := any number of whitespace bytes
//! ```

use vstd::prelude::*;
use vstd::string::*;
use crate::descriptor::{
    decimal_value, digits_end, has_at, lemma_digits_end_bounds, lemma_has_at_first,
    lemma_parse_body_bounds, lemma_parse_expr_bounds, lemma_parse_fields_bounds,
    lemma_spaces_end_bounds, parse_body, parse_expr, parse_fields, parse_rank, spaces_end,
    Malformed,
};
use crate::shape::Shape;
use crate::text::{ascii, is_digit, is_space};

verus! {

/// Whether `s` holds nothing but whitespace from `i` up to `j`.
pub open spec fn blank(s: Seq<u8>, i: int, j: int) -> bool {
    0 <= i <= j <= s.len() && forall|k: int| i <= k < j ==> is_space(#[trigger] s[k])
}

/// Whether `s` holds from `i` up to `j` the digits of the rank `rank`.
pub open spec fn is_rank(s: Seq<u8>, i: int, j: int, rank: u8) -> bool {
    &&& 0 <= i < j <= s.len()
    &&& forall|k: int| i <= k < j ==> is_digit(#[trigger] s[k])
    &&& decimal_value(s.subrange(i, j)) == rank
}

/// Four positions, none before the one that it follows. Where the grammar
/// below asks this of the parts of an expression, the rest of what it asks
/// already implies it: it is spelled out to give the prover a term to find
/// the parts by.
pub open spec fn rising(a: int, b: int, c: int, d: int) -> bool {
    a <= b <= c <= d
}

/// Whether `s` holds from `i` up to `j` a type expression of the shape
/// `shape`.
pub open spec fn derives(s: Seq<u8>, i: int, j: int, shape: Shape) -> bool
    decreases shape, 2nat,
{
    exists|a: int, b: int|
        #![trigger rising(i, a, b, j)]
        rising(i, a, b, j) && expr_with(s, i, j, shape, a, b)
}

/// A type expression whose body stands from `a` up to `b`.
pub open spec fn expr_with(s: Seq<u8>, i: int, j: int, shape: Shape, a: int, b: int) -> bool
    decreases shape, 1nat,
{
    &&& has_at(s, i, ascii("("@))
    &&& blank(s, i + 1, a)
    &&& derives_body(s, a, b, shape)
    &&& blank(s, b, j - 1)
    &&& has_at(s, j - 1, ascii(")"@))
}

/// Whether `s` holds from `a` up to `b` the keyword of `shape` and what the
/// keyword asks for.
pub open spec fn derives_body(s: Seq<u8>, a: int, b: int, shape: Shape) -> bool
    decreases shape, 0nat,
{
    match shape {
        Shape::Int => has_at(s, a, ascii("IntType"@)) && b == a + 7,
        Shape::Float => has_at(s, a, ascii("FloatType"@)) && b == a + 9,
        Shape::Bool => has_at(s, a, ascii("BoolType"@)) && b == a + 8,
        Shape::Void => has_at(s, a, ascii("VoidType"@)) && b == a + 8,
        Shape::Tuple(fields) => has_at(s, a, ascii("TupleType"@)) && derives_fields(
            s,
            a + 9,
            b,
            fields,
        ),
        Shape::Array(element, rank) => has_at(s, a, ascii("ArrayType"@)) && exists|
            c: int,
            d: int,
            f: int,
        |
            #![trigger rising(c, d, f, b)]
            rising(c, d, f, b) && array_with(s, a, b, *element, rank, c, d, f),
    }
}

/// What follows the keyword of an array: the element from `c` up to `d` and
/// the rank from `f` up to `b`.
pub open spec fn array_with(
    s: Seq<u8>,
    a: int,
    b: int,
    element: Shape,
    rank: u8,
    c: int,
    d: int,
    f: int,
) -> bool
    decreases element, 3nat,
{
    &&& blank(s, a + 9, c)
    &&& derives(s, c, d, element)
    &&& blank(s, d, f)
    &&& is_rank(s, f, b, rank)
}

/// Whether `s` holds from `i` up to `j` type expressions of the shapes
/// `fields`, one after the other.
pub open spec fn derives_fields(s: Seq<u8>, i: int, j: int, fields: Seq<Shape>) -> bool
    decreases fields, 1nat,
{
    if fields.len() == 0 {
        0 <= i == j <= s.len()
    } else {
        exists|a: int, b: int|
            #![trigger rising(i, a, b, j)]
            rising(i, a, b, j) && fields_with(s, i, j, fields, a, b)
    }
}

/// Fields of which the first stands from `a` up to `b`.
pub open spec fn fields_with(s: Seq<u8>, i: int, j: int, fields: Seq<Shape>, a: int, b: int) -> bool
    decreases fields, 0nat,
{
    &&& fields.len() > 0
    &&& blank(s, i, a)
    &&& derives(s, a, b, fields[0])
    &&& derives_fields(s, b, j, fields.drop_first())
}

/// Whitespace up to a byte that is none is the whole run of whitespace.
pub proof fn lemma_blank_is_run(s: Seq<u8>, i: int, a: int)
    requires
        blank(s, i, a),
        a == s.len() || !is_space(s[a]),
    ensures
        spaces_end(s, i) == a,
    decreases a - i,
{
    if i < a {
        assert(is_space(s[i]));
        lemma_blank_is_run(s, i + 1, a);
    }
}

/// Digits up to a byte that is none are the whole run of digits.
pub proof fn lemma_digits_are_run(s: Seq<u8>, i: int, b: int)
    requires
        0 <= i <= b <= s.len(),
        forall|k: int| i <= k < b ==> is_digit(#[trigger] s[k]),
        b == s.len() || !is_digit(s[b]),
    ensures
        digits_end(s, i) == b,
    decreases b - i,
{
    if i < b {
        assert(is_digit(s[i]));
        lemma_digits_are_run(s, i + 1, b);
    }
}

/// The keywords and the parentheses start with different bytes, none of them
/// whitespace or a digit.
proof fn lemma_first_bytes(s: Seq<u8>, a: int)
    ensures
        has_at(s, a, ascii("("@)) ==> a < s.len() && s[a] == '(' as u8,
        has_at(s, a, ascii(")"@)) ==> a < s.len() && s[a] == ')' as u8,
        has_at(s, a, ascii("IntType"@)) ==> a + 7 <= s.len() && s[a] == 'I' as u8,
        has_at(s, a, ascii("FloatType"@)) ==> a + 9 <= s.len() && s[a] == 'F' as u8,
        has_at(s, a, ascii("BoolType"@)) ==> a + 8 <= s.len() && s[a] == 'B' as u8,
        has_at(s, a, ascii("VoidType"@)) ==> a + 8 <= s.len() && s[a] == 'V' as u8,
        has_at(s, a, ascii("TupleType"@)) ==> a + 9 <= s.len() && s[a] == 'T' as u8,
        has_at(s, a, ascii("ArrayType"@)) ==> a + 9 <= s.len() && s[a] == 'A' as u8,
{
    reveal_strlit("(");
    reveal_strlit(")");
    reveal_strlit("IntType");
    reveal_strlit("FloatType");
    reveal_strlit("BoolType");
    reveal_strlit("VoidType");
    reveal_strlit("TupleType");
    reveal_strlit("ArrayType");
    lemma_has_at_first(s, a, ascii("("@));
    lemma_has_at_first(s, a, ascii(")"@));
    lemma_has_at_first(s, a, ascii("IntType"@));
    lemma_has_at_first(s, a, ascii("FloatType"@));
    lemma_has_at_first(s, a, ascii("BoolType"@));
    lemma_has_at_first(s, a, ascii("VoidType"@));
    lemma_has_at_first(s, a, ascii("TupleType"@));
    lemma_has_at_first(s, a, ascii("ArrayType"@));
}

/// Fields end at or behind their start.
pub proof fn lemma_fields_span(s: Seq<u8>, i: int, j: int, fields: Seq<Shape>)
    requires
        derives_fields(s, i, j, fields),
    ensures
        i <= j,
    decreases fields.len(),
{
    if fields.len() > 0 {
        let (a, b) = choose|a: int, b: int|
            #![trigger rising(i, a, b, j)]
            rising(i, a, b, j) && fields_with(s, i, j, fields, a, b);
    }
}

/// The parser accepts every type expression of the grammar, with its shape
/// and its end.
pub proof fn lemma_parse_complete(s: Seq<u8>, i: int, j: int, shape: Shape)
    requires
        derives(s, i, j, shape),
    ensures
        parse_expr(s, i) == Ok::<(Shape, int), Malformed>((shape, j)),
    decreases shape, 2nat,
{
    let (a, b) = choose|a: int, b: int|
        #![trigger rising(i, a, b, j)]
        rising(i, a, b, j) && expr_with(s, i, j, shape, a, b);
    lemma_first_bytes(s, i);
    lemma_first_bytes(s, j - 1);
    lemma_body_complete(s, a, b, shape, j - 1);
    lemma_blank_is_run(s, i + 1, a);
}

/// The parser accepts every body of the grammar that whitespace and a closing
/// parenthesis follow.
proof fn lemma_body_complete(s: Seq<u8>, a: int, b: int, shape: Shape, close: int)
    requires
        0 <= a,
        derives_body(s, a, b, shape),
        blank(s, b, close),
        has_at(s, close, ascii(")"@)),
    ensures
        a < s.len() && !is_space(s[a]),
        parse_body(s, a) is Ok,
        parse_body(s, a)->Ok_0.0 == shape,
        spaces_end(s, parse_body(s, a)->Ok_0.1) == close,
    decreases shape, 1nat,
{
    lemma_first_bytes(s, a);
    lemma_first_bytes(s, close);
    match shape {
        Shape::Tuple(fields) => {
            lemma_fields_complete(s, a + 9, b, fields, close);
        },
        Shape::Array(element, rank) => {
            let (c, d, f) = choose|c: int, d: int, f: int|
                #![trigger rising(c, d, f, b)]
                rising(c, d, f, b) && array_with(s, a, b, *element, rank, c, d, f);
            lemma_parse_complete(s, c, d, *element);
            lemma_first_bytes(s, c);
            lemma_blank_is_run(s, a + 9, c);
            assert(is_digit(s[f]));
            lemma_blank_is_run(s, d, f);
            assert(b == close || is_space(s[b]));
            lemma_digits_are_run(s, f, b);
            lemma_blank_is_run(s, b, close);
        },
        _ => {
            lemma_blank_is_run(s, b, close);
        },
    }
}

/// The parser accepts every field list of the grammar that whitespace and a
/// closing parenthesis follow.
proof fn lemma_fields_complete(s: Seq<u8>, i: int, b: int, fields: Seq<Shape>, close: int)
    requires
        0 <= i,
        derives_fields(s, i, b, fields),
        blank(s, b, close),
        has_at(s, close, ascii(")"@)),
    ensures
        parse_fields(s, i) == Ok::<(Seq<Shape>, int), Malformed>((fields, close)),
    decreases fields, 1nat,
{
    lemma_first_bytes(s, close);
    if fields.len() == 0 {
        lemma_blank_is_run(s, i, close);
        assert(fields =~= Seq::<Shape>::empty());
    } else {
        let (a, e) = choose|a: int, e: int|
            #![trigger rising(i, a, e, b)]
            rising(i, a, e, b) && fields_with(s, i, b, fields, a, e);
        lemma_parse_complete(s, a, e, fields[0]);
        lemma_first_bytes(s, a);
        lemma_blank_is_run(s, i, a);
        lemma_parse_expr_bounds(s, a);
        lemma_fields_complete(s, e, b, fields.drop_first(), close);
        assert(seq![fields[0]] + fields.drop_first() =~= fields);
    }
}

/// What the parser accepts is a type expression of the grammar.
pub proof fn lemma_parse_sound(s: Seq<u8>, i: int)
    requires
        0 <= i <= s.len(),
    ensures
        parse_expr(s, i) matches Ok((shape, j)) ==> derives(s, i, j, shape),
    decreases s.len() - i, 2nat,
{
    lemma_first_bytes(s, i);
    if has_at(s, i, ascii("("@)) {
        let a = spaces_end(s, i + 1);
        lemma_spaces_end_bounds(s, i + 1);
        let b = lemma_body_sound(s, a);
        if let Ok((shape, body_end)) = parse_body(s, a) {
            let close = spaces_end(s, body_end);
            lemma_parse_body_bounds(s, a);
            lemma_spaces_end_bounds(s, body_end);
            if has_at(s, close, ascii(")"@)) {
                assert(blank(s, b, close)) by {
                    assert forall|k: int| b <= k < close implies is_space(#[trigger] s[k]) by {
                        if k < body_end {
                        }
                    }
                }
                assert(rising(i, a, b, close + 1) && expr_with(s, i, close + 1, shape, a, b));
            }
        }
    }
}

/// What the parser accepts as a body is a body of the grammar up to `b`, with
/// nothing but whitespace between `b` and where the parser stopped.
proof fn lemma_body_sound(s: Seq<u8>, a: int) -> (b: int)
    requires
        0 <= a <= s.len(),
    ensures
        parse_body(s, a) matches Ok((shape, end)) ==> derives_body(s, a, b, shape) && blank(
            s,
            b,
            end,
        ),
    decreases s.len() - a, 1nat,
{
    lemma_first_bytes(s, a);
    lemma_parse_body_bounds(s, a);
    if has_at(s, a, ascii("IntType"@)) {
        a + 7
    } else if has_at(s, a, ascii("FloatType"@)) {
        a + 9
    } else if has_at(s, a, ascii("BoolType"@)) {
        a + 8
    } else if has_at(s, a, ascii("VoidType"@)) {
        a + 8
    } else if has_at(s, a, ascii("TupleType"@)) {
        lemma_fields_sound(s, a + 9)
    } else if has_at(s, a, ascii("ArrayType"@)) {
        let c = spaces_end(s, a + 9);
        lemma_spaces_end_bounds(s, a + 9);
        lemma_parse_sound(s, c);
        lemma_parse_expr_bounds(s, c);
        if let Ok((element, d)) = parse_expr(s, c) {
            let f = spaces_end(s, d);
            lemma_spaces_end_bounds(s, d);
            lemma_digits_end_bounds(s, f);
            if let Ok((rank, end)) = parse_rank(s, f) {
                assert(rising(c, d, f, end) && array_with(s, a, end, element, rank, c, d, f));
                end
            } else {
                a
            }
        } else {
            a
        }
    } else {
        a
    }
}

/// What the parser accepts as fields are fields of the grammar up to `b`,
/// with nothing but whitespace between `b` and the closing parenthesis.
proof fn lemma_fields_sound(s: Seq<u8>, i: int) -> (b: int)
    requires
        0 <= i <= s.len(),
    ensures
        parse_fields(s, i) matches Ok((fields, close)) ==> derives_fields(s, i, b, fields) && blank(
            s,
            b,
            close,
        ),
    decreases s.len() - i, 3nat,
{
    let a = spaces_end(s, i);
    lemma_spaces_end_bounds(s, i);
    if a >= s.len() {
        i
    } else if s[a] == ')' as u8 {
        i
    } else {
        lemma_parse_sound(s, a);
        lemma_parse_expr_bounds(s, a);
        if let Ok((field, e)) = parse_expr(s, a) {
            let b = lemma_fields_sound(s, e);
            if let Ok((rest, close)) = parse_fields(s, e) {
                let fields = seq![field] + rest;
                assert(fields.drop_first() =~= rest);
                lemma_fields_span(s, e, b, rest);
                assert(rising(i, a, e, b) && fields_with(s, i, b, fields, a, e));
            }
            b
        } else {
            i
        }
    }
}

/// The parser and the grammar agree: `parse_expr` gives a shape and an end
/// exactly for the texts that the grammar derives, so no text is a type
/// expression in two ways.
pub proof fn lemma_parse_is_the_grammar(s: Seq<u8>, i: int, j: int, shape: Shape)
    ensures
        parse_expr(s, i) == Ok::<(Shape, int), Malformed>((shape, j)) <==> derives(s, i, j, shape),
{
    if derives(s, i, j, shape) {
        lemma_parse_complete(s, i, j, shape);
    }
    if parse_expr(s, i) == Ok::<(Shape, int), Malformed>((shape, j)) {
        lemma_first_bytes(s, i);
        lemma_parse_sound(s, i);
    }
}

/// A text is a type expression in one way at most: from one start the
/// grammar derives one shape and one end. So the size of the value that a
/// descriptor names is fixed by the descriptor alone.
pub proof fn lemma_shape_is_unique(
    s: Seq<u8>,
    i: int,
    j1: int,
    shape1: Shape,
    j2: int,
    shape2: Shape,
)
    requires
        derives(s, i, j1, shape1),
        derives(s, i, j2, shape2),
    ensures
        shape1 == shape2,
        j1 == j2,
        shape1.size() == shape2.size(),
{
    lemma_parse_complete(s, i, j1, shape1);
    lemma_parse_complete(s, i, j2, shape2);
}

} // verus!
