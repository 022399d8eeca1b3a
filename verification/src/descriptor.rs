//! Type descriptors: the text in which a compiler names the shape of a value.
//!
//! [`parse_expr`] reads a descriptor from left to right, as a function of the
//! text: it gives the shape and the end of the type expression at a position,
//! or the place where the text goes wrong. [`TypeStr::parse`] computes it.
//! The grammar itself, and the proof that `parse_expr` accepts exactly its
//! type expressions, are in [`crate::grammar`].

use vstd::prelude::*;
use vstd::string::*;
use crate::error::{ErrorKind, Expected};
use crate::shape::{Shape, Type};
use crate::text::{ascii, byte_is_digit, byte_is_space, is_digit, is_space, literal_bytes};

verus! {

/// Where and why a descriptor departs from the grammar.
pub struct Malformed {
    pub offset: int,
    pub expected: Expected,
}

impl Malformed {
    /// The error that reports this departure.
    pub open spec fn kind(self) -> ErrorKind {
        ErrorKind::MalformedDescriptor { offset: self.offset as usize, expected: self.expected }
    }
}

/// The end of the run of whitespace that starts at `pos`.
pub open spec fn spaces_end(s: Seq<u8>, pos: int) -> int
    decreases s.len() - pos,
{
    if 0 <= pos < s.len() && is_space(s[pos]) {
        spaces_end(s, pos + 1)
    } else {
        pos
    }
}

/// The end of the run of decimal digits that starts at `pos`.
pub open spec fn digits_end(s: Seq<u8>, pos: int) -> int
    decreases s.len() - pos,
{
    if 0 <= pos < s.len() && is_digit(s[pos]) {
        digits_end(s, pos + 1)
    } else {
        pos
    }
}

/// Whether the bytes of `lit` stand in `s` at `pos`.
pub open spec fn has_at(s: Seq<u8>, pos: int, lit: Seq<u8>) -> bool {
    0 <= pos && pos + lit.len() <= s.len() && s.subrange(pos, pos + lit.len()) == lit
}

/// The number that a run of decimal digits stands for.
pub open spec fn decimal_value(digits: Seq<u8>) -> nat
    decreases digits.len(),
{
    if digits.len() == 0 {
        0
    } else {
        decimal_value(digits.drop_last()) * 10 + (digits.last() - 0x30) as nat
    }
}

/// The rank that stands at `pos`: the longest run of digits there, which must
/// not be empty nor stand for more than 255.
pub open spec fn parse_rank(s: Seq<u8>, pos: int) -> Result<(u8, int), Malformed> {
    let end = digits_end(s, pos);
    let value = decimal_value(s.subrange(pos, end));
    if end == pos || value > 255 {
        Err(Malformed { offset: pos, expected: Expected::Integer })
    } else {
        Ok((value as u8, end))
    }
}

/// A run of whitespace ends at or behind its start, and inside the text if it
/// started there.
pub proof fn lemma_spaces_end_bounds(s: Seq<u8>, pos: int)
    ensures
        pos <= spaces_end(s, pos),
        pos <= s.len() ==> spaces_end(s, pos) <= s.len(),
        0 <= pos ==> forall|k: int| pos <= k < spaces_end(s, pos) ==> is_space(#[trigger] s[k]),
        0 <= spaces_end(s, pos) < s.len() ==> !is_space(s[spaces_end(s, pos)]),
    decreases s.len() - pos,
{
    if 0 <= pos < s.len() && is_space(s[pos]) {
        lemma_spaces_end_bounds(s, pos + 1);
    }
}

/// A run of digits ends at or behind its start, and inside the text if it
/// started there.
pub proof fn lemma_digits_end_bounds(s: Seq<u8>, pos: int)
    ensures
        pos <= digits_end(s, pos),
        pos <= s.len() ==> digits_end(s, pos) <= s.len(),
        0 <= pos ==> forall|k: int| pos <= k < digits_end(s, pos) ==> is_digit(#[trigger] s[k]),
        0 <= digits_end(s, pos) < s.len() ==> !is_digit(s[digits_end(s, pos)]),
    decreases s.len() - pos,
{
    if 0 <= pos < s.len() && is_digit(s[pos]) {
        lemma_digits_end_bounds(s, pos + 1);
    }
}

/// The type expression that starts at `pos`, with the position behind its
/// closing parenthesis; or the first place at which the text is no type
/// expression.
pub open spec fn parse_expr(s: Seq<u8>, pos: int) -> Result<(Shape, int), Malformed>
    decreases s.len() - pos, 2nat,
{
    if !has_at(s, pos, ascii("("@)) {
        Err(Malformed { offset: pos, expected: Expected::Token })
    } else {
        proof {
            reveal_strlit("(");
            lemma_spaces_end_bounds(s, pos + 1);
        }
        match parse_body(s, spaces_end(s, pos + 1)) {
            Err(e) => Err(e),
            Ok((shape, body_end)) => {
                let close = spaces_end(s, body_end);
                if has_at(s, close, ascii(")"@)) {
                    Ok((shape, close + 1))
                } else {
                    Err(Malformed { offset: close, expected: Expected::Token })
                }
            },
        }
    }
}

/// What stands between the parentheses of a type expression: a keyword and
/// what the keyword asks for.
pub open spec fn parse_body(s: Seq<u8>, pos: int) -> Result<(Shape, int), Malformed>
    decreases s.len() - pos, 1nat,
{
    if has_at(s, pos, ascii("IntType"@)) {
        Ok((Shape::Int, pos + 7))
    } else if has_at(s, pos, ascii("FloatType"@)) {
        Ok((Shape::Float, pos + 9))
    } else if has_at(s, pos, ascii("BoolType"@)) {
        Ok((Shape::Bool, pos + 8))
    } else if has_at(s, pos, ascii("VoidType"@)) {
        Ok((Shape::Void, pos + 8))
    } else if has_at(s, pos, ascii("TupleType"@)) {
        proof {
            reveal_strlit("TupleType");
        }
        match parse_fields(s, pos + 9) {
            Err(e) => Err(e),
            Ok((fields, end)) => Ok((Shape::Tuple(fields), end)),
        }
    } else if has_at(s, pos, ascii("ArrayType"@)) {
        proof {
            reveal_strlit("ArrayType");
            lemma_spaces_end_bounds(s, pos + 9);
        }
        match parse_expr(s, spaces_end(s, pos + 9)) {
            Err(e) => Err(e),
            Ok((element, end)) => match parse_rank(s, spaces_end(s, end)) {
                Err(e) => Err(e),
                Ok((rank, rank_end)) => Ok((Shape::Array(Box::new(element), rank), rank_end)),
            },
        }
    } else {
        Err(Malformed { offset: pos, expected: Expected::Token })
    }
}

/// The fields of a tuple from `pos` on, up to the closing parenthesis, at
/// which the position returned stands. (A field always ends behind its start
/// and inside the text, by [`lemma_parse_expr_bounds`]; the test for it is
/// there to show that the search comes to an end.)
pub open spec fn parse_fields(s: Seq<u8>, pos: int) -> Result<(Seq<Shape>, int), Malformed>
    decreases s.len() - pos, 3nat,
{
    proof {
        lemma_spaces_end_bounds(s, pos);
    }
    let start = spaces_end(s, pos);
    if start < 0 || start >= s.len() {
        Err(Malformed { offset: start, expected: Expected::Token })
    } else if s[start] == ')' as u8 {
        Ok((Seq::empty(), start))
    } else {
        match parse_expr(s, start) {
            Err(e) => Err(e),
            Ok((field, end)) => if start < end <= s.len() {
                match parse_fields(s, end) {
                    Err(e) => Err(e),
                    Ok((rest, close)) => Ok((seq![field] + rest, close)),
                }
            } else {
                Err(Malformed { offset: start, expected: Expected::Token })
            },
        }
    }
}

/// A type expression that parses is not empty and ends inside the text; one
/// that does not parse goes wrong between its start and the end of the text.
pub proof fn lemma_parse_expr_bounds(s: Seq<u8>, pos: int)
    requires
        0 <= pos <= s.len(),
    ensures
        match parse_expr(s, pos) {
            Ok((_, end)) => pos < end <= s.len(),
            Err(m) => pos <= m.offset <= s.len(),
        },
    decreases s.len() - pos, 2nat,
{
    reveal_strlit("(");
    reveal_strlit(")");
    if has_at(s, pos, ascii("("@)) {
        let start = spaces_end(s, pos + 1);
        lemma_spaces_end_bounds(s, pos + 1);
        lemma_parse_body_bounds(s, start);
        if let Ok((_, body_end)) = parse_body(s, start) {
            lemma_spaces_end_bounds(s, body_end);
        }
    }
}

/// The same bounds for what stands between the parentheses.
pub proof fn lemma_parse_body_bounds(s: Seq<u8>, pos: int)
    requires
        0 <= pos <= s.len(),
    ensures
        match parse_body(s, pos) {
            Ok((_, end)) => pos < end <= s.len(),
            Err(m) => pos <= m.offset <= s.len(),
        },
    decreases s.len() - pos, 1nat,
{
    reveal_strlit("IntType");
    reveal_strlit("FloatType");
    reveal_strlit("BoolType");
    reveal_strlit("VoidType");
    reveal_strlit("TupleType");
    reveal_strlit("ArrayType");
    if has_at(s, pos, ascii("IntType"@)) {
    } else if has_at(s, pos, ascii("FloatType"@)) {
    } else if has_at(s, pos, ascii("BoolType"@)) {
    } else if has_at(s, pos, ascii("VoidType"@)) {
    } else if has_at(s, pos, ascii("TupleType"@)) {
        lemma_parse_fields_bounds(s, pos + 9);
    } else if has_at(s, pos, ascii("ArrayType"@)) {
        let start = spaces_end(s, pos + 9);
        lemma_spaces_end_bounds(s, pos + 9);
        lemma_parse_expr_bounds(s, start);
        if let Ok((_, end)) = parse_expr(s, start) {
            lemma_spaces_end_bounds(s, end);
            lemma_digits_end_bounds(s, spaces_end(s, end));
        }
    }
}

/// A field list that parses ends at a closing parenthesis inside the text.
pub proof fn lemma_parse_fields_bounds(s: Seq<u8>, pos: int)
    requires
        0 <= pos <= s.len(),
    ensures
        match parse_fields(s, pos) {
            Ok((_, close)) => pos <= close < s.len() && s[close] == ')' as u8,
            Err(m) => pos <= m.offset <= s.len(),
        },
    decreases s.len() - pos, 3nat,
{
    let start = spaces_end(s, pos);
    lemma_spaces_end_bounds(s, pos);
    if start < s.len() && s[start] != ')' as u8 {
        lemma_parse_expr_bounds(s, start);
        if let Ok((_, end)) = parse_expr(s, start) {
            lemma_parse_fields_bounds(s, end);
        }
    }
}

/// A cursor in a descriptor: the text and a position in it.
pub struct Cursor {
    pub text: Seq<u8>,
    pub pos: int,
}

/// A descriptor being read: its bytes and how far they have been read.
pub struct TypeStr<'a> {
    src: &'a [u8],
    cur: usize,
}

impl<'a> View for TypeStr<'a> {
    type V = Cursor;

    closed spec fn view(&self) -> Cursor {
        Cursor { text: self.src@, pos: self.cur as int }
    }
}

/// What `r` holds with `done` put before its fields.
pub open spec fn after_fields(done: Seq<Shape>, r: Result<(Seq<Shape>, int), Malformed>) -> Result<
    (Seq<Shape>, int),
    Malformed,
> {
    match r {
        Ok((rest, close)) => Ok((done + rest, close)),
        Err(m) => Err(m),
    }
}

impl<'a> TypeStr<'a> {
    #[verifier::type_invariant]
    spec fn in_bounds(self) -> bool {
        self.cur <= self.src@.len()
    }

    /// A reader at the start of `src`.
    pub fn new(src: &'a [u8]) -> (r: Self)
        ensures
            r@ == (Cursor { text: src@, pos: 0 }),
    {
        TypeStr { src, cur: 0 }
    }

    /// The position of the next byte to read.
    pub fn position(&self) -> (r: usize)
        ensures
            r == self@.pos,
            r <= self@.text.len(),
    {
        proof {
            use_type_invariant(self);
        }
        self.cur
    }

    /// Moves past the whitespace at the cursor.
    pub fn skip_spaces(&mut self)
        ensures
            final(self)@.text == old(self)@.text,
            final(self)@.pos == spaces_end(old(self)@.text, old(self)@.pos),
    {
        proof {
            use_type_invariant(&*self);
        }
        while self.cur < self.src.len() && byte_is_space(self.src[self.cur])
            invariant
                self.src == old(self).src,
                old(self).cur <= self.cur <= self.src@.len(),
                spaces_end(self.src@, self.cur as int) == spaces_end(
                    self.src@,
                    old(self).cur as int,
                ),
            decreases self.src@.len() - self.cur,
        {
            self.cur += 1;
        }
    }

    /// Moves past `bytes` if they stand at the cursor, and fails without
    /// moving if they do not.
    pub fn skip_bytes(&mut self, bytes: &[u8]) -> (r: Result<(), ErrorKind>)
        ensures
            final(self)@.text == old(self)@.text,
            has_at(old(self)@.text, old(self)@.pos, bytes@) ==> r is Ok && final(self)@.pos == old(
                self,
            )@.pos + bytes@.len(),
            !has_at(old(self)@.text, old(self)@.pos, bytes@) ==> final(self)@.pos == old(self)@.pos
                && r == Err::<(), ErrorKind>(
                ErrorKind::MalformedDescriptor {
                    offset: old(self)@.pos as usize,
                    expected: Expected::Token,
                },
            ),
    {
        proof {
            use_type_invariant(&*self);
        }
        let n = bytes.len();
        let failed = Err(
            ErrorKind::MalformedDescriptor { offset: self.cur, expected: Expected::Token },
        );
        if n > self.src.len() - self.cur {
            return failed;
        }
        let mut i: usize = 0;
        while i < n
            invariant
                i <= n,
                n == bytes@.len(),
                self.src == old(self).src,
                self.cur == old(self).cur,
                self.cur + n <= self.src@.len() <= usize::MAX,
                failed == Err::<(), ErrorKind>(
                    ErrorKind::MalformedDescriptor { offset: self.cur, expected: Expected::Token },
                ),
                forall|k: int| 0 <= k < i ==> self.src@[self.cur + k] == bytes@[k],
            decreases n - i,
        {
            if self.src[self.cur + i] != bytes[i] {
                assert(self.src@.subrange(self.cur as int, self.cur + n)[i as int] == self.src@[
                    self.cur + i
                ]);
                return failed;
            }
            i += 1;
        }
        assert(self.src@.subrange(self.cur as int, self.cur + n) =~= bytes@);
        self.cur += n;
        Ok(())
    }

    /// Reads the rank at the cursor: all the digits there. Fails without
    /// moving where no digit stands or the digits stand for more than 255.
    pub fn parse_integer(&mut self) -> (r: Result<u8, ErrorKind>)
        ensures
            final(self)@.text == old(self)@.text,
            match parse_rank(old(self)@.text, old(self)@.pos) {
                Ok((rank, end)) => r == Ok::<u8, ErrorKind>(rank) && final(self)@.pos == end,
                Err(m) => r == Err::<u8, ErrorKind>(m.kind()) && final(self)@.pos == m.offset,
            },
    {
        proof {
            use_type_invariant(&*self);
        }
        let start = self.cur;
        let ghost s = self.src@;
        let mut end = start;
        // The digits read so far, as a number; 256 stands for all that is more.
        let mut value: u16 = 0;
        while end < self.src.len() && byte_is_digit(self.src[end])
            invariant
                self.src@ == s,
                self.cur == start,
                start <= end <= s.len(),
                digits_end(s, end as int) == digits_end(s, start as int),
                forall|k: int| start <= k < end ==> is_digit(#[trigger] s[k]),
                value <= 256,
                value == if decimal_value(s.subrange(start as int, end as int)) < 256 {
                    decimal_value(s.subrange(start as int, end as int))
                } else {
                    256
                },
            decreases s.len() - end,
        {
            let digit = (self.src[end] - 0x30) as u16;
            proof {
                assert(s.subrange(start as int, end + 1).drop_last() =~= s.subrange(
                    start as int,
                    end as int,
                ));
            }
            value = if value >= 256 || value * 10 + digit > 255 {
                256
            } else {
                value * 10 + digit
            };
            end += 1;
        }
        if end == start || value > 255 {
            return Err(
                ErrorKind::MalformedDescriptor { offset: start, expected: Expected::Integer },
            );
        }
        self.cur = end;
        Ok(value as u8)
    }

    /// Reads the type expression at the cursor and moves behind it. Where the
    /// text is no type expression, fails with the cursor at the place where it
    /// goes wrong.
    pub fn parse(&mut self) -> (r: Result<Type, ErrorKind>)
        ensures
            final(self)@.text == old(self)@.text,
            match parse_expr(old(self)@.text, old(self)@.pos) {
                Ok((shape, end)) => r is Ok && r->Ok_0@ == shape && final(self)@.pos == end,
                Err(m) => r is Err && r->Err_0 == m.kind() && final(self)@.pos == m.offset,
            },
        decreases old(self)@.text.len() - old(self)@.pos, 2nat,
    {
        proof {
            use_type_invariant(&*self);
            reveal_strlit("(");
            reveal_strlit(")");
            lemma_spaces_end_bounds(self@.text, self@.pos + 1);
        }
        match self.skip_bytes(literal_bytes("(")) {
            Err(e) => {
                return Err(e);
            },
            Ok(()) => {},
        }
        self.skip_spaces();
        let data_type = match self.parse_body() {
            Err(e) => {
                return Err(e);
            },
            Ok(t) => t,
        };
        self.skip_spaces();
        match self.skip_bytes(literal_bytes(")")) {
            Err(e) => Err(e),
            Ok(()) => Ok(data_type),
        }
    }

    /// Reads a keyword and what it asks for.
    fn parse_body(&mut self) -> (r: Result<Type, ErrorKind>)
        ensures
            final(self)@.text == old(self)@.text,
            match parse_body(old(self)@.text, old(self)@.pos) {
                Ok((shape, end)) => r is Ok && r->Ok_0@ == shape && final(self)@.pos == end,
                Err(m) => r is Err && r->Err_0 == m.kind() && final(self)@.pos == m.offset,
            },
        decreases old(self)@.text.len() - old(self)@.pos, 1nat,
    {
        let ghost s = self@.text;
        let ghost pos = self@.pos;
        proof {
            use_type_invariant(&*self);
            reveal_strlit("IntType");
            reveal_strlit("FloatType");
            reveal_strlit("BoolType");
            reveal_strlit("VoidType");
            reveal_strlit("TupleType");
            reveal_strlit("ArrayType");
            lemma_has_at_first(s, pos, ascii("IntType"@));
            lemma_has_at_first(s, pos, ascii("FloatType"@));
            lemma_has_at_first(s, pos, ascii("BoolType"@));
            lemma_has_at_first(s, pos, ascii("VoidType"@));
            lemma_has_at_first(s, pos, ascii("TupleType"@));
            lemma_has_at_first(s, pos, ascii("ArrayType"@));
        }
        let unknown = Err(
            ErrorKind::MalformedDescriptor { offset: self.cur, expected: Expected::Token },
        );
        if self.cur >= self.src.len() {
            return unknown;
        }
        let letter = self.src[self.cur];
        if letter == 'I' as u8 {
            match self.skip_bytes(literal_bytes("IntType")) {
                Err(e) => Err(e),
                Ok(()) => Ok(Type::Int),
            }
        } else if letter == 'F' as u8 {
            match self.skip_bytes(literal_bytes("FloatType")) {
                Err(e) => Err(e),
                Ok(()) => Ok(Type::Float),
            }
        } else if letter == 'B' as u8 {
            match self.skip_bytes(literal_bytes("BoolType")) {
                Err(e) => Err(e),
                Ok(()) => Ok(Type::Bool),
            }
        } else if letter == 'V' as u8 {
            match self.skip_bytes(literal_bytes("VoidType")) {
                Err(e) => Err(e),
                Ok(()) => Ok(Type::Void),
            }
        } else if letter == 'T' as u8 {
            match self.skip_bytes(literal_bytes("TupleType")) {
                Err(e) => {
                    return Err(e);
                },
                Ok(()) => {},
            }
            match self.parse_fields() {
                Err(e) => Err(e),
                Ok(fields) => Ok(Type::Tuple(fields)),
            }
        } else if letter == 'A' as u8 {
            match self.skip_bytes(literal_bytes("ArrayType")) {
                Err(e) => {
                    return Err(e);
                },
                Ok(()) => {},
            }
            proof {
                lemma_spaces_end_bounds(s, pos + 9);
            }
            self.skip_spaces();
            let element_type = match self.parse() {
                Err(e) => {
                    return Err(e);
                },
                Ok(t) => t,
            };
            self.skip_spaces();
            match self.parse_integer() {
                Err(e) => Err(e),
                Ok(rank) => Ok(Type::Array(Box::new(element_type), rank)),
            }
        } else {
            unknown
        }
    }

    /// Reads the fields of a tuple and stops at the closing parenthesis.
    fn parse_fields(&mut self) -> (r: Result<Vec<Type>, ErrorKind>)
        ensures
            final(self)@.text == old(self)@.text,
            match parse_fields(old(self)@.text, old(self)@.pos) {
                Ok((shapes, close)) => r is Ok && Type::shapes(r->Ok_0@) == shapes && final(self)@.pos
                    == close,
                Err(m) => r is Err && r->Err_0 == m.kind() && final(self)@.pos == m.offset,
            },
        decreases old(self)@.text.len() - old(self)@.pos, 3nat,
    {
        let ghost s = self@.text;
        let ghost start = self@.pos;
        proof {
            use_type_invariant(&*self);
        }
        let mut fields: Vec<Type> = Vec::new();
        loop
            invariant
                s == old(self)@.text,
                start == old(self)@.pos,
                self@.text == s,
                start <= self@.pos <= s.len(),
                self.src@ == s,
                self.cur == self@.pos,
                parse_fields(s, start) == after_fields(
                    Type::shapes(fields@),
                    parse_fields(s, self@.pos),
                ),
            decreases s.len() - self@.pos,
        {
            let ghost before = self@.pos;
            proof {
                lemma_spaces_end_bounds(s, before);
            }
            self.skip_spaces();
            proof {
                use_type_invariant(&*self);
            }
            if self.cur >= self.src.len() {
                return Err(
                    ErrorKind::MalformedDescriptor { offset: self.cur, expected: Expected::Token },
                );
            }
            if self.src[self.cur] == ')' as u8 {
                proof {
                    assert(Type::shapes(fields@) + Seq::<Shape>::empty() =~= Type::shapes(fields@));
                }
                return Ok(fields);
            }
            let ghost field_start = self@.pos;
            proof {
                lemma_parse_expr_bounds(s, field_start);
            }
            match self.parse() {
                Err(e) => {
                    return Err(e);
                },
                Ok(field) => {
                    proof {
                        Type::lemma_shapes_push(fields@, field);
                        let rest = parse_fields(s, self@.pos);
                        if let Ok((more, close)) = rest {
                            assert(Type::shapes(fields@) + (seq![field@] + more) =~= Type::shapes(
                                fields@,
                            ).push(field@) + more);
                        }
                    }
                    fields.push(field);
                },
            }
        }
    }
}

/// Where `lit` stands at `pos`, its first byte is the byte at `pos`.
pub proof fn lemma_has_at_first(s: Seq<u8>, pos: int, lit: Seq<u8>)
    requires
        lit.len() > 0,
    ensures
        has_at(s, pos, lit) ==> pos < s.len() && s[pos] == lit[0],
{
    if has_at(s, pos, lit) {
        assert(s.subrange(pos, pos + lit.len())[0] == s[pos]);
    }
}

} // verus!
