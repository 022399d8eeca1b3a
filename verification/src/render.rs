//! The text of a value.
//!
//! [`rendered`] says what the text of a value is, given its shape, the memory
//! and its address; [`Type::render`] computes it from a [`Snapshot`]. Where
//! the snapshot lacks something the value has no text yet: the outcome is
//! then the list of all that was found missing, in the order of reading, so
//! that one pass tells the caller all that it can supply at once.

use vstd::prelude::*;
use vstd::string::*;
use crate::decimal::{decimal, decimal_text, signed, word_signed};
use crate::memory::{lemma_word_zero, read_word, word_at, Memory, Snapshot};
use crate::separator::{count_elements, element_count, separator, separator_before};
use crate::shape::{Shape, Type};

verus! {

/// Why a value could not be rendered from a snapshot.
#[derive(Debug, Clone, Copy, PartialEq, Eq, Structural)]
pub enum Fault {
    /// The snapshot holds no region with the `len` bytes at `addr`.
    Unmapped { addr: u64, len: u64 },
    /// The snapshot holds no text for the floating-point word `bits`.
    Unformatted { bits: u64 },
    /// A value or an element block is larger than can be addressed.
    Oversize,
}

/// The lengths of the axes of the array header at `off`, outermost first.
pub open spec fn dims_at(bytes: Seq<u8>, off: int, rank: nat) -> Seq<u64> {
    Seq::new(rank, |k: int| word_at(bytes, off + 8 * k))
}

/// One outcome after another: the two texts in a row, or all the faults of
/// both.
pub open spec fn joined(
    first: Result<Seq<char>, Seq<Fault>>,
    second: Result<Seq<char>, Seq<Fault>>,
) -> Result<Seq<char>, Seq<Fault>> {
    match (first, second) {
        (Ok(a), Ok(b)) => Ok(a + b),
        (Ok(_), Err(g)) => Err(g),
        (Err(f), Ok(_)) => Err(f),
        (Err(f), Err(g)) => Err(f + g),
    }
}

/// A text between an opening and a closing mark; faults stay what they are.
pub open spec fn enclosed(
    open: Seq<char>,
    inner: Result<Seq<char>, Seq<Fault>>,
    close: Seq<char>,
) -> Result<Seq<char>, Seq<Fault>> {
    match inner {
        Ok(text) => Ok(open + text + close),
        Err(faults) => Err(faults),
    }
}

/// The text of the value of shape `shape` that stands at `off` in `bytes`,
/// or all that `mem` lacks for it.
pub open spec fn text_at(shape: Shape, mem: Memory, bytes: Seq<u8>, off: int) -> Result<
    Seq<char>,
    Seq<Fault>,
>
    decreases shape, 0nat,
{
    match shape {
        Shape::Int => Ok(decimal(signed(word_at(bytes, off)))),
        Shape::Float => match mem.float_text(word_at(bytes, off)) {
            Some(text) => Ok(text),
            None => Err(seq![Fault::Unformatted { bits: word_at(bytes, off) }]),
        },
        Shape::Bool => Ok(
            if word_at(bytes, off) != 0 {
                "true"@
            } else {
                "false"@
            },
        ),
        Shape::Void => Ok("void"@),
        Shape::Tuple(fields) => enclosed(
            "{"@,
            fields_text(fields, fields.len(), mem, bytes, off),
            "}"@,
        ),
        Shape::Array(element, rank) => {
            let dims = dims_at(bytes, off, rank as nat);
            let data = word_at(bytes, off + 8 * rank);
            let count = element_count(dims);
            let extent = count * element.size();
            if element.size() > usize::MAX || count > u64::MAX || extent > u64::MAX {
                Err(seq![Fault::Oversize])
            } else {
                match mem.read(data, extent) {
                    None => Err(seq![Fault::Unmapped { addr: data, len: extent as u64 }]),
                    Some(block) => enclosed(
                        "["@,
                        elements_text(*element, dims, count, mem, block),
                        "]"@,
                    ),
                }
            }
        },
    }
}

/// The texts of the first `k` fields of a tuple that stands at `off`, with
/// `", "` between them; or the faults of those fields.
pub open spec fn fields_text(
    fields: Seq<Shape>,
    k: nat,
    mem: Memory,
    bytes: Seq<u8>,
    off: int,
) -> Result<Seq<char>, Seq<Fault>>
    decreases fields, k,
{
    if k == 0 || k > fields.len() {
        Ok(Seq::empty())
    } else {
        joined(
            joined(
                fields_text(fields, (k - 1) as nat, mem, bytes, off),
                Ok(
                    if k == 1 {
                        Seq::empty()
                    } else {
                        ", "@
                    },
                ),
            ),
            text_at(fields[k - 1], mem, bytes, off + Shape::prefix_size(fields, (k - 1) as nat)),
        )
    }
}

/// The texts of the first `n` elements of an array whose elements lie packed
/// in `block`, each after its separator; or the faults of those elements.
pub open spec fn elements_text(
    element: Shape,
    dims: Seq<u64>,
    n: nat,
    mem: Memory,
    block: Seq<u8>,
) -> Result<Seq<char>, Seq<Fault>>
    decreases element, n + 1,
{
    if n == 0 {
        Ok(Seq::empty())
    } else {
        joined(
            joined(
                elements_text(element, dims, (n - 1) as nat, mem, block),
                Ok(
                    if n == 1 {
                        Seq::empty()
                    } else {
                        separator_before(dims, (n - 1) as nat)
                    },
                ),
            ),
            text_at(element, mem, block, (n - 1) * element.size()),
        )
    }
}

/// The text of the value of shape `shape` at the address `addr`: that of the
/// bytes that `mem` holds there.
pub open spec fn rendered(shape: Shape, mem: Memory, addr: u64) -> Result<Seq<char>, Seq<Fault>> {
    if shape.size() > usize::MAX {
        Err(seq![Fault::Oversize])
    } else {
        match mem.read(addr, shape.size()) {
            None => Err(seq![Fault::Unmapped { addr, len: shape.size() as u64 }]),
            Some(bytes) => text_at(shape, mem, bytes, 0),
        }
    }
}

/// A value is without a text only for a reason: no outcome is an empty list
/// of faults.
pub proof fn lemma_faults_are_some(shape: Shape, mem: Memory, bytes: Seq<u8>, off: int)
    ensures
        text_at(shape, mem, bytes, off) matches Err(faults) ==> faults.len() > 0,
    decreases shape, 0nat,
{
    match shape {
        Shape::Tuple(fields) => {
            lemma_fields_faults_are_some(fields, fields.len(), mem, bytes, off);
        },
        Shape::Array(element, rank) => {
            let dims = dims_at(bytes, off, rank as nat);
            let count = element_count(dims);
            let extent = count * element.size();
            if let Some(block) = mem.read(word_at(bytes, off + 8 * rank), extent as nat) {
                lemma_elements_faults_are_some(*element, dims, count, mem, block);
            }
        },
        _ => {},
    }
}

/// The same for the first `k` fields of a tuple.
proof fn lemma_fields_faults_are_some(
    fields: Seq<Shape>,
    k: nat,
    mem: Memory,
    bytes: Seq<u8>,
    off: int,
)
    ensures
        fields_text(fields, k, mem, bytes, off) matches Err(faults) ==> faults.len() > 0,
    decreases fields, k,
{
    if 0 < k <= fields.len() {
        lemma_fields_faults_are_some(fields, (k - 1) as nat, mem, bytes, off);
        lemma_faults_are_some(
            fields[k - 1],
            mem,
            bytes,
            off + Shape::prefix_size(fields, (k - 1) as nat),
        );
    }
}

/// The same for the first `n` elements of an array.
proof fn lemma_elements_faults_are_some(
    element: Shape,
    dims: Seq<u64>,
    n: nat,
    mem: Memory,
    block: Seq<u8>,
)
    ensures
        elements_text(element, dims, n, mem, block) matches Err(faults) ==> faults.len() > 0,
    decreases element, n + 1,
{
    if n > 0 {
        lemma_elements_faults_are_some(element, dims, (n - 1) as nat, mem, block);
        lemma_faults_are_some(element, mem, block, (n - 1) * element.size());
    }
}

/// A truth value is `false` where all its eight bytes are zero, and `true`
/// where any of them is not; what else memory holds makes no difference.
pub proof fn lemma_bool_text(mem: Memory, bytes: Seq<u8>, off: int)
    requires
        0 <= off,
        off + 8 <= bytes.len(),
    ensures
        (forall|k: int| off <= k < off + 8 ==> bytes[k] == 0) ==> text_at(
            Shape::Bool,
            mem,
            bytes,
            off,
        ) == Ok::<Seq<char>, Seq<Fault>>("false"@),
        (exists|k: int| off <= k < off + 8 && bytes[k] != 0) ==> text_at(
            Shape::Bool,
            mem,
            bytes,
            off,
        ) == Ok::<Seq<char>, Seq<Fault>>("true"@),
{
    lemma_word_zero(bytes, off);
}

/// The text of a value is made from the bytes of the value, from the blocks
/// that its arrays point to and from the texts of its floating-point words:
/// where two buffers hold the same bytes for the value, its text is the same,
/// whatever else they hold.
pub proof fn lemma_text_reads_the_value_only(
    shape: Shape,
    mem: Memory,
    bytes1: Seq<u8>,
    off1: int,
    bytes2: Seq<u8>,
    off2: int,
)
    requires
        0 <= off1,
        off1 + shape.size() <= bytes1.len(),
        0 <= off2,
        off2 + shape.size() <= bytes2.len(),
        bytes1.subrange(off1, off1 + shape.size()) == bytes2.subrange(off2, off2 + shape.size()),
    ensures
        text_at(shape, mem, bytes1, off1) == text_at(shape, mem, bytes2, off2),
    decreases shape, 0nat,
{
    let size = shape.size() as int;
    match shape {
        Shape::Tuple(fields) => {
            lemma_fields_read_the_value_only(fields, fields.len(), mem, bytes1, off1, bytes2, off2);
        },
        Shape::Array(element, rank) => {
            assert forall|j: int| 0 <= j <= rank implies #[trigger] word_at(bytes1, off1 + 8 * j)
                == word_at(bytes2, off2 + 8 * j) by {
                lemma_words_agree(bytes1, off1, bytes2, off2, size, 8 * j);
            }
            assert(dims_at(bytes1, off1, rank as nat) =~= dims_at(bytes2, off2, rank as nat));
        },
        _ => {
            lemma_words_agree(bytes1, off1, bytes2, off2, size, 0);
        },
    }
}

/// Two words of the same eight bytes are one word.
proof fn lemma_words_agree(
    bytes1: Seq<u8>,
    off1: int,
    bytes2: Seq<u8>,
    off2: int,
    size: int,
    at: int,
)
    requires
        0 <= off1,
        off1 + size <= bytes1.len(),
        0 <= off2,
        off2 + size <= bytes2.len(),
        bytes1.subrange(off1, off1 + size) == bytes2.subrange(off2, off2 + size),
        0 <= at,
        at + 8 <= size,
    ensures
        word_at(bytes1, off1 + at) == word_at(bytes2, off2 + at),
{
    let v1 = bytes1.subrange(off1, off1 + size);
    let v2 = bytes2.subrange(off2, off2 + size);
    assert(v1[at] == bytes1[off1 + at] && v2[at] == bytes2[off2 + at]);
    assert(v1[at + 1] == bytes1[off1 + at + 1] && v2[at + 1] == bytes2[off2 + at + 1]);
    assert(v1[at + 2] == bytes1[off1 + at + 2] && v2[at + 2] == bytes2[off2 + at + 2]);
    assert(v1[at + 3] == bytes1[off1 + at + 3] && v2[at + 3] == bytes2[off2 + at + 3]);
    assert(v1[at + 4] == bytes1[off1 + at + 4] && v2[at + 4] == bytes2[off2 + at + 4]);
    assert(v1[at + 5] == bytes1[off1 + at + 5] && v2[at + 5] == bytes2[off2 + at + 5]);
    assert(v1[at + 6] == bytes1[off1 + at + 6] && v2[at + 6] == bytes2[off2 + at + 6]);
    assert(v1[at + 7] == bytes1[off1 + at + 7] && v2[at + 7] == bytes2[off2 + at + 7]);
}

/// The same for the first `k` fields of a tuple.
proof fn lemma_fields_read_the_value_only(
    fields: Seq<Shape>,
    k: nat,
    mem: Memory,
    bytes1: Seq<u8>,
    off1: int,
    bytes2: Seq<u8>,
    off2: int,
)
    requires
        k <= fields.len(),
        0 <= off1,
        off1 + Shape::prefix_size(fields, fields.len()) <= bytes1.len(),
        0 <= off2,
        off2 + Shape::prefix_size(fields, fields.len()) <= bytes2.len(),
        bytes1.subrange(off1, off1 + Shape::prefix_size(fields, fields.len())) == bytes2.subrange(
            off2,
            off2 + Shape::prefix_size(fields, fields.len()),
        ),
    ensures
        fields_text(fields, k, mem, bytes1, off1) == fields_text(fields, k, mem, bytes2, off2),
    decreases fields, k,
{
    if k > 0 {
        lemma_fields_read_the_value_only(fields, (k - 1) as nat, mem, bytes1, off1, bytes2, off2);
        let whole = Shape::prefix_size(fields, fields.len()) as int;
        let at = Shape::prefix_size(fields, (k - 1) as nat) as int;
        let size = fields[k - 1].size() as int;
        Shape::lemma_prefix_size_monotonic(fields, k, fields.len());
        assert(bytes1.subrange(off1 + at, off1 + at + size) =~= bytes1.subrange(
            off1,
            off1 + whole,
        ).subrange(at, at + size));
        assert(bytes2.subrange(off2 + at, off2 + at + size) =~= bytes2.subrange(
            off2,
            off2 + whole,
        ).subrange(at, at + size));
        lemma_text_reads_the_value_only(fields[k - 1], mem, bytes1, off1 + at, bytes2, off2 + at);
    }
}

/// A value that has a text keeps it when more is recorded in memory: what a
/// fault asks for can be supplied without a change to what was rendered
/// before.
pub proof fn lemma_text_is_stable(
    shape: Shape,
    earlier: Memory,
    later: Memory,
    bytes: Seq<u8>,
    off: int,
)
    requires
        later.extends(earlier),
        text_at(shape, earlier, bytes, off) is Ok,
    ensures
        text_at(shape, later, bytes, off) == text_at(shape, earlier, bytes, off),
    decreases shape, 0nat,
{
    match shape {
        Shape::Float => {
            later.lemma_float_text_stable(earlier, word_at(bytes, off));
        },
        Shape::Tuple(fields) => {
            lemma_fields_are_stable(fields, fields.len(), earlier, later, bytes, off);
        },
        Shape::Array(element, rank) => {
            let dims = dims_at(bytes, off, rank as nat);
            let data = word_at(bytes, off + 8 * rank);
            let count = element_count(dims);
            let extent = count * element.size();
            later.lemma_read_stable(earlier, data, extent as nat);
            let block = earlier.read(data, extent as nat)->Some_0;
            lemma_elements_are_stable(*element, dims, count, earlier, later, block);
        },
        _ => {},
    }
}

/// The same for the first `k` fields of a tuple.
proof fn lemma_fields_are_stable(
    fields: Seq<Shape>,
    k: nat,
    earlier: Memory,
    later: Memory,
    bytes: Seq<u8>,
    off: int,
)
    requires
        later.extends(earlier),
        fields_text(fields, k, earlier, bytes, off) is Ok,
    ensures
        fields_text(fields, k, later, bytes, off) == fields_text(fields, k, earlier, bytes, off),
    decreases fields, k,
{
    if 0 < k <= fields.len() {
        lemma_fields_are_stable(fields, (k - 1) as nat, earlier, later, bytes, off);
        lemma_text_is_stable(
            fields[k - 1],
            earlier,
            later,
            bytes,
            off + Shape::prefix_size(fields, (k - 1) as nat),
        );
    }
}

/// The same for the first `n` elements of an array.
proof fn lemma_elements_are_stable(
    element: Shape,
    dims: Seq<u64>,
    n: nat,
    earlier: Memory,
    later: Memory,
    block: Seq<u8>,
)
    requires
        later.extends(earlier),
        elements_text(element, dims, n, earlier, block) is Ok,
    ensures
        elements_text(element, dims, n, later, block) == elements_text(
            element,
            dims,
            n,
            earlier,
            block,
        ),
    decreases element, n + 1,
{
    if n > 0 {
        lemma_elements_are_stable(element, dims, (n - 1) as nat, earlier, later, block);
        lemma_text_is_stable(element, earlier, later, block, (n - 1) * element.size());
    }
}

/// A value that was rendered from a snapshot is rendered the same from a
/// snapshot that holds more.
pub proof fn lemma_rendered_is_stable(shape: Shape, earlier: Memory, later: Memory, addr: u64)
    requires
        later.extends(earlier),
        rendered(shape, earlier, addr) is Ok,
    ensures
        rendered(shape, later, addr) == rendered(shape, earlier, addr),
{
    later.lemma_read_stable(earlier, addr, shape.size());
    lemma_text_is_stable(shape, earlier, later, earlier.read(addr, shape.size())->Some_0, 0);
}

/// The size of a value that is not a tuple, and the limit of what a slice
/// holds.
proof fn lemma_header_fits(shape: Shape, bytes: &[u8])
    ensures
        shape is Int || shape is Float || shape is Bool || shape is Void ==> shape.size() == 8,
        shape matches Shape::Array(_, rank) ==> shape.size() == 8 + 8 * rank,
        bytes@.len() <= usize::MAX,
{
    assert(bytes.len() == bytes@.len());
}

/// The faults `more` behind the faults `faults`.
fn add_faults(faults: &mut Vec<Fault>, more: Vec<Fault>)
    ensures
        final(faults)@ == old(faults)@ + more@,
{
    let mut more = more;
    faults.append(&mut more);
}

/// One fault and no other.
fn only(fault: Fault) -> (r: Vec<Fault>)
    ensures
        r@ == seq![fault],
{
    let mut faults = Vec::new();
    faults.push(fault);
    faults
}

impl Type {
    /// Renders the value of this type that stands at `off` in `bytes`, and
    /// gives the outcome with the offset behind the value.
    fn render_at(&self, mem: &Snapshot, bytes: &[u8], off: usize) -> (r: (
        Result<String, Vec<Fault>>,
        usize,
    ))
        requires
            off + self@.size() <= bytes@.len(),
        ensures
            r.1 == off + self@.size(),
            match text_at(self@, mem@, bytes@, off as int) {
                Ok(text) => r.0 is Ok && r.0->Ok_0@ == text,
                Err(faults) => r.0 is Err && r.0->Err_0@ == faults && faults.len() > 0,
            },
        decreases self, 2nat,
    {
        proof {
            lemma_header_fits(self@, bytes);
        }
        match self {
            Type::Int => {
                let value = word_signed(read_word(bytes, off));
                (Ok(decimal_text(value)), off + 8)
            },
            Type::Float => {
                let bits = read_word(bytes, off);
                match mem.float_text(bits) {
                    None => (Err(only(Fault::Unformatted { bits })), off + 8),
                    Some(text) => (Ok(text.to_owned()), off + 8),
                }
            },
            Type::Bool => {
                let value = read_word(bytes, off);
                let text = if value != 0 {
                    "true"
                } else {
                    "false"
                };
                (Ok(text.to_owned()), off + 8)
            },
            Type::Void => (Ok("void".to_owned()), off + 8),
            Type::Tuple(fields) => self.render_fields(fields, mem, bytes, off),
            Type::Array(element, rank) => {
                let outcome = self.render_elements(element, *rank, mem, bytes, off);
                (outcome, off + 8 + 8 * (*rank as usize))
            },
        }
    }

    /// Renders a tuple with the fields `fields` that stands at `off`.
    fn render_fields(&self, fields: &Vec<Type>, mem: &Snapshot, bytes: &[u8], off: usize) -> (r: (
        Result<String, Vec<Fault>>,
        usize,
    ))
        requires
            *self == Type::Tuple(*fields),
            off + self@.size() <= bytes@.len(),
        ensures
            r.1 == off + self@.size(),
            match text_at(self@, mem@, bytes@, off as int) {
                Ok(text) => r.0 is Ok && r.0->Ok_0@ == text,
                Err(faults) => r.0 is Err && r.0->Err_0@ == faults && faults.len() > 0,
            },
        decreases self, 1nat,
    {
        let ghost shapes = Type::shapes(fields@);
        proof {
            Type::lemma_shapes_index(fields@);
        }
        let mut out = String::new();
        out.append("{");
        let mut faults: Vec<Fault> = Vec::new();
        let mut at = off;
        let mut i: usize = 0;
        while i < fields.len()
            invariant
                *self == Type::Tuple(*fields),
                shapes == Type::shapes(fields@),
                shapes.len() == fields.len(),
                forall|j: int| 0 <= j < fields.len() ==> shapes[j] == fields[j]@,
                i <= fields.len(),
                off + Shape::prefix_size(shapes, shapes.len()) <= bytes@.len(),
                at == off + Shape::prefix_size(shapes, i as nat),
                faults@.len() > 0 ==> fields_text(shapes, i as nat, mem@, bytes@, off as int) == Err::<
                    Seq<char>,
                    Seq<Fault>,
                >(faults@),
                faults@.len() == 0 ==> fields_text(shapes, i as nat, mem@, bytes@, off as int) is Ok,
                faults@.len() == 0 ==> out@ == "{"@ + fields_text(
                    shapes,
                    i as nat,
                    mem@,
                    bytes@,
                    off as int,
                )->Ok_0,
            decreases fields.len() - i,
        {
            proof {
                Shape::lemma_prefix_size_monotonic(shapes, (i + 1) as nat, shapes.len());
            }
            let ghost found = faults@;
            // The fields are a part of this type: each of them is smaller than it.
            assert(self->Tuple_0 == *fields);
            let (field, end) = fields[i].render_at(mem, bytes, at);
            match field {
                Err(more) => {
                    add_faults(&mut faults, more);
                    assert(found.len() == 0 ==> faults@ =~= more@);
                },
                Ok(text) => {
                    if faults.len() == 0 {
                        if i > 0 {
                            out.append(", ");
                        }
                        out.append(text.as_str());
                    }
                },
            }
            at = end;
            i += 1;
            proof {
                if faults@.len() == 0 {
                    assert(out@ =~= "{"@ + fields_text(
                        shapes,
                        i as nat,
                        mem@,
                        bytes@,
                        off as int,
                    )->Ok_0);
                }
            }
        }
        if faults.len() > 0 {
            return (Err(faults), at);
        }
        out.append("}");
        (Ok(out), at)
    }

    /// Renders an array of `rank` axes whose header stands at `off`.
    fn render_elements(
        &self,
        element: &Box<Type>,
        rank: u8,
        mem: &Snapshot,
        bytes: &[u8],
        off: usize,
    ) -> (r: Result<String, Vec<Fault>>)
        requires
            *self == Type::Array(*element, rank),
            off + self@.size() <= bytes@.len(),
        ensures
            match text_at(self@, mem@, bytes@, off as int) {
                Ok(text) => r is Ok && r->Ok_0@ == text,
                Err(faults) => r is Err && r->Err_0@ == faults && faults.len() > 0,
            },
        decreases self, 1nat,
    {
        proof {
            lemma_header_fits(self@, bytes);
        }
        let axes = rank as usize;
        let mut dims: Vec<u64> = Vec::new();
        let mut k: usize = 0;
        while k < axes
            invariant
                k <= axes,
                axes == rank,
                off + 8 + 8 * axes <= bytes@.len() <= usize::MAX,
                dims@ == dims_at(bytes@, off as int, k as nat),
            decreases axes - k,
        {
            dims.push(read_word(bytes, off + 8 * k));
            k += 1;
            assert(dims@ =~= dims_at(bytes@, off as int, k as nat));
        }
        let data = read_word(bytes, off + 8 * axes);
        let size = match element.size() {
            None => {
                return Err(only(Fault::Oversize));
            },
            Some(size) => size,
        };
        let count = match count_elements(dims.as_slice()) {
            None => {
                return Err(only(Fault::Oversize));
            },
            Some(count) => count,
        };
        let extent = match count.checked_mul(size as u64) {
            None => {
                return Err(only(Fault::Oversize));
            },
            Some(extent) => extent,
        };
        let block = match mem.read(data, extent) {
            None => {
                return Err(only(Fault::Unmapped { addr: data, len: extent }));
            },
            Some(block) => block,
        };
        let ghost shape = element@;
        proof {
            lemma_header_fits(shape, block);
        }
        let mut out = String::new();
        out.append("[");
        let mut faults: Vec<Fault> = Vec::new();
        let mut i: u64 = 0;
        while i < count
            invariant
                *self == Type::Array(*element, rank),
                shape == element@,
                size == shape.size(),
                text_at(self@, mem@, bytes@, off as int) == enclosed(
                    "["@,
                    elements_text(shape, dims@, count as nat, mem@, block@),
                    "]"@,
                ),
                i <= count,
                count * size == extent,
                extent == 0 || block@.len() == extent,
                block@.len() <= usize::MAX,
                faults@.len() > 0 ==> elements_text(shape, dims@, i as nat, mem@, block@) == Err::<
                    Seq<char>,
                    Seq<Fault>,
                >(faults@),
                faults@.len() == 0 ==> elements_text(shape, dims@, i as nat, mem@, block@) is Ok,
                faults@.len() == 0 ==> out@ == "["@ + elements_text(
                    shape,
                    dims@,
                    i as nat,
                    mem@,
                    block@,
                )->Ok_0,
            decreases count - i,
        {
            assert((i + 1) * size <= count * size && i * size + size == (i + 1) * size && 0 <= i
                * size) by (nonlinear_arith)
                requires
                    i < count,
            ;
            let at = (i * (size as u64)) as usize;
            let ghost found = faults@;
            let (item, _) = element.render_at(mem, block, at);
            match item {
                Err(more) => {
                    add_faults(&mut faults, more);
                    assert(found.len() == 0 ==> faults@ =~= more@);
                },
                Ok(text) => {
                    if faults.len() == 0 {
                        if i > 0 {
                            let between = separator(dims.as_slice(), i);
                            out.append(between.as_str());
                        }
                        out.append(text.as_str());
                    }
                },
            }
            i += 1;
            proof {
                if faults@.len() == 0 {
                    assert(out@ =~= "["@ + elements_text(
                        shape,
                        dims@,
                        i as nat,
                        mem@,
                        block@,
                    )->Ok_0);
                }
            }
        }
        if faults.len() > 0 {
            return Err(faults);
        }
        out.append("]");
        Ok(out)
    }

    /// The text of the value of this type at the address `data`, read from
    /// `mem`; or all that `mem` was found to lack for it, in the order of
    /// reading.
    pub fn render(&self, mem: &Snapshot, data: u64) -> (r: Result<String, Vec<Fault>>)
        ensures
            match rendered(self@, mem@, data) {
                Ok(text) => r is Ok && r->Ok_0@ == text,
                Err(faults) => r is Err && r->Err_0@ == faults && faults.len() > 0,
            },
    {
        let size = match self.size() {
            None => {
                return Err(only(Fault::Oversize));
            },
            Some(size) => size,
        };
        let bytes = match mem.read(data, size as u64) {
            None => {
                return Err(only(Fault::Unmapped { addr: data, len: size as u64 }));
            },
            Some(bytes) => bytes,
        };
        self.render_at(mem, bytes, 0).0
    }

    /// Appends to `out` the text of the value of this type at the address
    /// `data`. Where `mem` lacks something for it, `out` stays as it was.
    pub fn write_type(&self, mem: &Snapshot, data: u64, out: &mut String) -> (r: Result<
        (),
        Vec<Fault>,
    >)
        ensures
            match rendered(self@, mem@, data) {
                Ok(text) => r is Ok && final(out)@ == old(out)@ + text,
                Err(faults) => r is Err && r->Err_0@ == faults && faults.len() > 0 && final(out)@
                    == old(out)@,
            },
    {
        match self.render(mem, data) {
            Err(faults) => Err(faults),
            Ok(text) => {
                out.append(text.as_str());
                Ok(())
            },
        }
    }
}

} // verus!
