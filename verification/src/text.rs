//! The texts of bits and of lists of names, as a table shows them.

use vstd::prelude::*;
use vstd::string::StringExecFns;
use crate::names::names_of;

verus! {

/// The digit of a bit.
pub open spec fn digit(bit: bool) -> char {
    if bit {
        '1'
    } else {
        '0'
    }
}

/// The digits of a bit pattern, as one text.
pub open spec fn pattern_text(bits: Seq<bool>) -> Seq<char> {
    Seq::new(bits.len(), |i: int| digit(bits[i]))
}

/// The digits of a bit pattern, each a text of its own.
pub open spec fn digit_texts(bits: Seq<bool>) -> Seq<Seq<char>> {
    Seq::new(bits.len(), |i: int| seq![digit(bits[i])])
}

/// The names one after the other, with nothing between them.
pub open spec fn joined(names: Seq<Seq<char>>) -> Seq<char>
    decreases names.len(),
{
    if names.len() == 0 {
        Seq::empty()
    } else {
        joined(names.drop_last()) + names.last()
    }
}

/// The text of one bit: "1" or "0".
pub fn bit_text(bit: bool) -> (text: String)
    ensures
        text@ == seq![digit(bit)],
{
    proof {
        reveal_strlit("1");
        reveal_strlit("0");
    }
    let text = if bit {
        String::from_str("1")
    } else {
        String::from_str("0")
    };
    assert(text@ =~= seq![digit(bit)]);
    text
}

/// The text of a bit pattern, such as "0110".
pub fn bits_text(bits: &Vec<bool>) -> (text: String)
    ensures
        text@ == pattern_text(bits@),
{
    proof {
        reveal_strlit("1");
        reveal_strlit("0");
    }
    let mut text = String::new();
    let mut i: usize = 0;
    while i < bits.len()
        invariant
            i <= bits@.len(),
            text@ == pattern_text(bits@.take(i as int)),
            "1"@ == seq!['1'],
            "0"@ == seq!['0'],
        decreases bits@.len() - i,
    {
        if bits[i] {
            text.append("1");
        } else {
            text.append("0");
        }
        assert(text@ =~= pattern_text(bits@.take(i + 1)));
        i += 1;
    }
    assert(bits@.take(bits@.len() as int) =~= bits@);
    text
}

/// The texts of the bits of a pattern, one for each bit.
pub fn bit_cells(bits: &Vec<bool>) -> (cells: Vec<String>)
    ensures
        names_of(cells@) == digit_texts(bits@),
{
    let mut cells: Vec<String> = Vec::new();
    let mut i: usize = 0;
    while i < bits.len()
        invariant
            i <= bits@.len(),
            names_of(cells@) == digit_texts(bits@.take(i as int)),
        decreases bits@.len() - i,
    {
        let ghost before = cells@;
        cells.push(bit_text(bits[i]));
        assert(names_of(cells@) =~= names_of(before).push(seq![digit(bits@[i as int])]));
        assert(digit_texts(bits@.take(i + 1)) =~= digit_texts(bits@.take(i as int)).push(
            seq![digit(bits@[i as int])],
        ));
        i += 1;
    }
    assert(bits@.take(bits@.len() as int) =~= bits@);
    cells
}

/// The names one after the other, with nothing between them.
pub fn join_names(names: &Vec<String>) -> (text: String)
    ensures
        text@ == joined(names_of(names@)),
{
    let mut text = String::new();
    let mut i: usize = 0;
    while i < names.len()
        invariant
            i <= names@.len(),
            text@ == joined(names_of(names@).take(i as int)),
        decreases names@.len() - i,
    {
        proof {
            let all = names_of(names@);
            assert(all.take(i + 1).drop_last() =~= all.take(i as int));
            assert(all.take(i + 1).last() == names@[i as int]@);
        }
        text.append(names[i].as_str());
        i += 1;
    }
    assert(names_of(names@).take(names@.len() as int) =~= names_of(names@));
    text
}

} // verus!
