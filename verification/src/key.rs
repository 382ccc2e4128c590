//! The text under which a grid cell is filed: both coordinates in decimal,
//! separated by a comma.

use crate::decimal::{
    decimal, lemma_decimal_has_no_comma, lemma_decimal_tells_integers_apart, push_decimal,
};
use vstd::prelude::*;
use vstd::string::*;

verus! {

/// The key of the cell `(x, y)`.
pub open spec fn coordinate_key(x: int, y: int) -> Seq<char> {
    decimal(x) + seq![','] + decimal(y)
}

/// Two cells with the same key are the same cell.
pub proof fn lemma_key_tells_cells_apart(x: int, y: int, other_x: int, other_y: int)
    requires
        coordinate_key(x, y) == coordinate_key(other_x, other_y),
    ensures
        x == other_x,
        y == other_y,
{
    let key = coordinate_key(x, y);
    let other = coordinate_key(other_x, other_y);
    let head = decimal(x);
    let other_head = decimal(other_x);
    lemma_decimal_has_no_comma(x);
    lemma_decimal_has_no_comma(other_x);
    assert(key[head.len() as int] == ',');
    assert(other[other_head.len() as int] == ',');
    assert(head =~= key.subrange(0, head.len() as int));
    assert(other_head =~= other.subrange(0, head.len() as int));
    assert(decimal(y) =~= key.subrange(head.len() as int + 1, key.len() as int));
    assert(decimal(other_y) =~= other.subrange(head.len() as int + 1, key.len() as int));
    lemma_decimal_tells_integers_apart(x, other_x);
    lemma_decimal_tells_integers_apart(y, other_y);
}

/// Writes out the key of the cell `(x, y)`.
pub fn coordinate_text(x: i32, y: i32) -> (key: String)
    ensures
        key@ == coordinate_key(x as int, y as int),
{
    let mut key: String = String::new();
    push_decimal(&mut key, x);
    proof {
        reveal_strlit(",");
    }
    key.append(",");
    push_decimal(&mut key, y);
    key
}

} // verus!
