//! The emitted values: a borrowed array, an owned array, or a count.
//!
//! The build step turns the surviving lines of a file into a fixed-size
//! array literal. The borrowed form holds views into the line data, the
//! owned form holds independent copies; both hold the same text in the same
//! order, and both are exactly as long as the emitted count.

use vstd::prelude::*;

verus! {

/// The borrowed form of the emitted array: one text view per line, in line
/// order, with the text unchanged.
pub fn include_lines<'a>(lines: &'a Vec<String>) -> (r: Vec<&'a str>)
    ensures
        r@.len() == lines@.len(),
        forall|i: int| 0 <= i < lines@.len() ==> r@[i]@ == lines@[i]@,
{
    let mut r: Vec<&str> = Vec::new();
    let mut i: usize = 0;
    while i < lines.len()
        invariant
            i <= lines.len(),
            r@.len() == i,
            forall|k: int| 0 <= k < i ==> r@[k]@ == lines@[k]@,
        decreases lines.len() - i,
    {
        r.push(lines[i].as_str());
        i = i + 1;
    }
    r
}

/// The owned form of the emitted array: one independently owned copy per
/// line, in line order, with the text unchanged.
pub fn include_lines_s(lines: &Vec<String>) -> (r: Vec<String>)
    ensures
        r@.len() == lines@.len(),
        forall|i: int| 0 <= i < lines@.len() ==> r@[i]@ == lines@[i]@,
{
    let mut r: Vec<String> = Vec::new();
    let mut i: usize = 0;
    while i < lines.len()
        invariant
            i <= lines.len(),
            r@.len() == i,
            forall|k: int| 0 <= k < i ==> r@[k]@ == lines@[k]@,
        decreases lines.len() - i,
    {
        r.push(lines[i].clone());
        i = i + 1;
    }
    r
}

/// Both emitted arrays are exactly as long as the emitted count: an array
/// built from the lines of a file, one element per line, has `line_count`
/// elements, so a size declared through the count always fits an array
/// emitted from the same bytes.
pub proof fn lemma_array_length_matches_count(b: Seq<u8>, lines: Seq<Seq<char>>, emitted_len: nat)
    requires
        lines == crate::text::line_seq(b),
        emitted_len == lines.len(),
    ensures
        emitted_len == crate::text::line_count(b),
{
}

/// The borrowed and the owned array hold the same text at every index: an
/// array whose elements each view the line at their index, and one whose
/// elements each copy it, agree element for element.
pub proof fn lemma_borrowed_owned_agree(
    lines: Seq<Seq<char>>,
    borrowed: Seq<Seq<char>>,
    owned: Seq<Seq<char>>,
)
    requires
        borrowed.len() == lines.len(),
        owned.len() == lines.len(),
        forall|i: int| 0 <= i < lines.len() ==> borrowed[i] == lines[i],
        forall|i: int| 0 <= i < lines.len() ==> owned[i] == lines[i],
    ensures
        forall|i: int| 0 <= i < lines.len() ==> borrowed[i] == owned[i],
{
}

} // verus!
