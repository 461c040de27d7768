//! The value a program evaluates to, read out of what its entry function wrote.

use vstd::prelude::*;

use crate::parser::ast::{ArrayElementType, PinpType};

verus! {

/// The value a program evaluates to. A float is its IEEE 754 bit pattern.
#[derive(Debug, PartialEq)]
pub enum PinpValue {
    Bool(bool),
    Int(i64),
    Float(u64),
    Void,
    Array(Vec<PinpValue>),
    Matrix {
        rows: usize,
        cols: usize,
        /// Elements in row-major order: `elements[row * cols + col]`.
        elements: Vec<PinpValue>,
    },
}

/// What an element is, from the word it was read as. Of a `Bool` only the lowest bit counts.
pub open spec fn element_value(elem: ArrayElementType, word: u64) -> PinpValue {
    match elem {
        ArrayElementType::Bool => PinpValue::Bool(word % 2 == 1),
        ArrayElementType::Int => PinpValue::Int(word as i64),
        ArrayElementType::Float => PinpValue::Float(word),
    }
}

/// Each value is that of its word.
pub open spec fn element_values(elem: ArrayElementType, words: Seq<u64>) -> Seq<PinpValue> {
    Seq::new(words.len(), |i: int| element_value(elem, words[i]))
}

/// How many elements lie at the address that a program of this type hands back; none for a scalar.
pub open spec fn elements_at_address(value_type: PinpType) -> Option<int> {
    match value_type {
        PinpType::Array(_, n) => Some(n as int),
        PinpType::Matrix(_, rows, cols) => Some(rows * cols),
        _ => None,
    }
}

/// Whether `value` is what a program of this type evaluated to, when its entry function wrote
/// `word` and `words` lie at the address that `word` is, for a type held by address.
pub open spec fn is_value(
    value_type: PinpType,
    word: u64,
    words: Seq<u64>,
    value: PinpValue,
) -> bool {
    match value_type {
        PinpType::Bool => value == PinpValue::Bool(word % 2 == 1),
        PinpType::Int => value == PinpValue::Int(word as i64),
        PinpType::Float => value == PinpValue::Float(word),
        PinpType::Void => value == PinpValue::Void,
        PinpType::Array(elem, _) => value matches PinpValue::Array(elements) && elements@
            == element_values(elem, words),
        PinpType::Matrix(elem, row_count, col_count) => value matches PinpValue::Matrix {
            rows,
            cols,
            elements,
        } && rows == row_count && cols == col_count && elements@ == element_values(elem, words),
        _ => false,
    }
}

fn low_bit(word: u64) -> (r: bool)
    ensures
        r == (word % 2 == 1),
{
    assert((word & 1 != 0) == (word % 2 == 1)) by (bit_vector);
    word & 1 != 0
}

fn decode_element(elem: ArrayElementType, word: u64) -> (r: PinpValue)
    ensures
        r == element_value(elem, word),
{
    match elem {
        ArrayElementType::Bool => PinpValue::Bool(low_bit(word)),
        ArrayElementType::Int => PinpValue::Int(word as i64),
        ArrayElementType::Float => PinpValue::Float(word),
    }
}

fn decode_elements(elem: ArrayElementType, words: &Vec<u64>) -> (r: Vec<PinpValue>)
    ensures
        r@ == element_values(elem, words@),
{
    let mut elements: Vec<PinpValue> = Vec::new();
    let mut index: usize = 0;
    while index < words.len()
        invariant
            index <= words@.len(),
            elements@ == element_values(elem, words@).take(index as int),
        decreases words@.len() - index,
    {
        elements.push(decode_element(elem, words[index]));
        index = index + 1;
        assert(elements@ =~= element_values(elem, words@).take(index as int));
    }
    assert(elements@ =~= element_values(elem, words@));
    elements
}

/// Reads a program's value: `word` is what its entry function wrote, and `words` the elements at
/// that address for an array or a matrix. `None` when `words` is not as long as the type says, and
/// for a type that no program's value is handed over as: a range, or a string, which takes two
/// words.
pub fn decode(value_type: PinpType, word: u64, words: &Vec<u64>) -> (r: Option<PinpValue>)
    ensures
        r is Some <==> (match value_type {
            PinpType::Range => false,
            PinpType::Str => false,
            _ => match elements_at_address(value_type) {
                Some(count) => words@.len() == count,
                None => true,
            },
        }),
        r matches Some(value) ==> is_value(value_type, word, words@, value),
{
    let given: usize = words.len();
    assert(given == words@.len());
    match value_type {
        PinpType::Bool => Some(PinpValue::Bool(low_bit(word))),
        PinpType::Int => Some(PinpValue::Int(word as i64)),
        PinpType::Float => Some(PinpValue::Float(word)),
        PinpType::Void => Some(PinpValue::Void),
        PinpType::Range => None,
        PinpType::Str => None,
        PinpType::Array(elem, n) => if given == n {
            Some(PinpValue::Array(decode_elements(elem, words)))
        } else {
            None
        },
        PinpType::Matrix(elem, rows, cols) => match rows.checked_mul(cols) {
            Some(count) => if count == given {
                Some(PinpValue::Matrix { rows, cols, elements: decode_elements(elem, words) })
            } else {
                None
            },
            None => None,
        },
    }
}

} // verus!
