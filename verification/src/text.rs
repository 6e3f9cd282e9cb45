//! Decoding records as UTF-8 text.
//!
//! Each record is interpreted as UTF-8. A record that decodes becomes one
//! line of the output; a record that does not is dropped silently, without
//! an error and without disturbing the order of the surviving lines.

use vstd::prelude::*;

verus! {

/// The text a byte sequence decodes to as UTF-8, or nothing where the bytes
/// are not valid UTF-8.
pub uninterp spec fn utf8_decoded(bytes: Seq<u8>) -> Option<Seq<char>>;

/// Relies on String::from_utf8: whether the bytes are valid UTF-8, and the
/// text they decode to, depend on the bytes alone.
#[verifier::external_body]
fn decode_utf8(bytes: &Vec<u8>) -> (r: Option<String>)
    ensures
        match r {
            Some(s) => utf8_decoded(bytes@) == Some(s@),
            None => utf8_decoded(bytes@) is None,
        },
{
    String::from_utf8(bytes.clone()).ok()
}

/// The decoded text of the records that are valid UTF-8, in record order.
pub open spec fn decoded_records(rs: Seq<Seq<u8>>) -> Seq<Seq<char>>
    decreases rs.len(),
{
    if rs.len() == 0 {
        Seq::empty()
    } else {
        let rest = decoded_records(rs.drop_last());
        match utf8_decoded(rs.last()) {
            Some(line) => rest.push(line),
            None => rest,
        }
    }
}

/// The lines of a file given as bytes: its newline-delimited records, each
/// decoded as UTF-8, the undecodable ones dropped.
pub open spec fn line_seq(b: Seq<u8>) -> Seq<Seq<char>> {
    decoded_records(crate::records::records_of(b))
}

/// How many lines the file given as bytes yields.
pub open spec fn line_count(b: Seq<u8>) -> nat {
    line_seq(b).len()
}

/// When every record decodes, no line is dropped: the decoded lines are
/// exactly as many as the records, and each line is its record's text, in
/// record order.
pub proof fn lemma_all_decodable_len(rs: Seq<Seq<u8>>)
    requires
        forall|i: int| 0 <= i < rs.len() ==> utf8_decoded(#[trigger] rs[i]) is Some,
    ensures
        decoded_records(rs).len() == rs.len(),
        forall|i: int|
            0 <= i < rs.len() ==> decoded_records(rs)[i] == utf8_decoded(#[trigger] rs[i])->Some_0,
    decreases rs.len(),
{
    if rs.len() > 0 {
        assert forall|i: int|
            0 <= i < rs.drop_last().len() implies utf8_decoded(
            #[trigger] rs.drop_last()[i],
        ) is Some by {
            assert(rs.drop_last()[i] == rs[i]);
        }
        lemma_all_decodable_len(rs.drop_last());
        assert forall|i: int|
            0 <= i < rs.len() implies decoded_records(rs)[i] == utf8_decoded(
            #[trigger] rs[i],
        )->Some_0 by {
            if i < rs.len() - 1 {
                assert(rs.drop_last()[i] == rs[i]);
                assert(decoded_records(rs.drop_last())[i] == utf8_decoded(
                    rs.drop_last()[i],
                )->Some_0);
            }
        }
    }
}

/// For a file all of whose newline-delimited records decode, the emitted
/// count equals the number of records.
pub proof fn lemma_count_all_decodable(b: Seq<u8>)
    requires
        forall|i: int|
            0 <= i < crate::records::records_of(b).len() ==> utf8_decoded(
                #[trigger] crate::records::records_of(b)[i],
            ) is Some,
    ensures
        line_count(b) == crate::records::records_of(b).len(),
{
    lemma_all_decodable_len(crate::records::records_of(b));
}

/// A file with no bytes yields no lines and an emitted count of zero.
pub proof fn lemma_empty_file()
    ensures
        line_seq(Seq::<u8>::empty()) == Seq::<Seq<char>>::empty(),
        line_count(Seq::<u8>::empty()) == 0,
{
}

/// One record that fails to decode, among records that otherwise all decode,
/// vanishes silently: the emitted lines are those of the record sequence
/// with the bad record taken out, in their order, so they are exactly one
/// fewer than the records, and no error is raised anywhere in the pipeline.
pub proof fn lemma_one_bad_record(rs: Seq<Seq<u8>>, j: int)
    requires
        0 <= j < rs.len(),
        utf8_decoded(rs[j]) is None,
        forall|i: int| 0 <= i < rs.len() && i != j ==> utf8_decoded(#[trigger] rs[i]) is Some,
    ensures
        decoded_records(rs) == decoded_records(rs.remove(j)),
        decoded_records(rs).len() == rs.len() - 1,
    decreases rs.len(),
{
    if j == rs.len() - 1 {
        assert(rs.remove(j) =~= rs.drop_last());
        assert forall|i: int|
            0 <= i < rs.drop_last().len() implies utf8_decoded(
            #[trigger] rs.drop_last()[i],
        ) is Some by {
            assert(rs.drop_last()[i] == rs[i]);
        }
        lemma_all_decodable_len(rs.drop_last());
    } else {
        assert(rs.drop_last()[j] == rs[j]);
        assert forall|i: int|
            0 <= i < rs.drop_last().len() && i != j implies utf8_decoded(
            #[trigger] rs.drop_last()[i],
        ) is Some by {
            assert(rs.drop_last()[i] == rs[i]);
        }
        lemma_one_bad_record(rs.drop_last(), j);
        assert(utf8_decoded(rs.last()) is Some);
        assert(rs.remove(j).drop_last() =~= rs.drop_last().remove(j));
        assert(rs.remove(j).last() == rs.last());
        assert(rs.remove(j).len() == rs.len() - 1);
    }
}

/// The views of a vector of strings.
pub open spec fn string_views(ls: Seq<String>) -> Seq<Seq<char>> {
    ls.map_values(|s: String| s@)
}

/// Appending one string to a vector appends its view to the views.
pub proof fn lemma_string_views_push(ls: Seq<String>, s: String)
    ensures
        string_views(ls.push(s)) == string_views(ls).push(s@),
{
    assert(string_views(ls.push(s)) =~= string_views(ls).push(s@));
}

/// The lines of a file given as bytes: each newline-delimited record decoded
/// as UTF-8, in file order, records that fail to decode silently dropped.
pub fn get_lines(bytes: &Vec<u8>) -> (r: Vec<String>)
    ensures
        string_views(r@) == line_seq(bytes@),
{
    let records = crate::records::split_records(bytes);
    let ghost rv = crate::records::views_of(records@);
    let mut out: Vec<String> = Vec::new();
    let mut i: usize = 0;
    proof {
        assert(rv.take(0) =~= Seq::<Seq<u8>>::empty());
        assert(string_views(out@) =~= decoded_records(rv.take(0)));
    }
    while i < records.len()
        invariant
            i <= records@.len(),
            rv == crate::records::views_of(records@),
            rv == crate::records::records_of(bytes@),
            string_views(out@) == decoded_records(rv.take(i as int)),
        decreases records@.len() - i,
    {
        proof {
            assert(rv.take(i as int + 1).drop_last() =~= rv.take(i as int));
            assert(rv.take(i as int + 1).last() == records@[i as int]@);
        }
        let ghost before = out@;
        match decode_utf8(&records[i]) {
            Some(line) => {
                proof {
                    lemma_string_views_push(before, line);
                }
                out.push(line);
            },
            None => {},
        }
        i = i + 1;
    }
    proof {
        assert(rv.take(records@.len() as int) =~= rv);
    }
    out
}

/// How many lines the file given as bytes yields: the count that the build
/// step emits in place of the array, equal by construction to the length of
/// the array either emitter would produce from the same bytes.
pub fn count_lines(bytes: &Vec<u8>) -> (r: usize)
    ensures
        r == line_count(bytes@),
{
    let records = crate::records::split_records(bytes);
    let ghost rv = crate::records::views_of(records@);
    let mut n: usize = 0;
    let mut i: usize = 0;
    proof {
        assert(rv.take(0) =~= Seq::<Seq<u8>>::empty());
    }
    while i < records.len()
        invariant
            i <= records@.len(),
            rv == crate::records::views_of(records@),
            rv == crate::records::records_of(bytes@),
            n <= i,
            n == decoded_records(rv.take(i as int)).len(),
        decreases records@.len() - i,
    {
        proof {
            assert(rv.take(i as int + 1).drop_last() =~= rv.take(i as int));
            assert(rv.take(i as int + 1).last() == records@[i as int]@);
        }
        match decode_utf8(&records[i]) {
            Some(_) => {
                n = n + 1;
            },
            None => {},
        }
        i = i + 1;
    }
    proof {
        assert(rv.take(records@.len() as int) =~= rv);
    }
    n
}

} // verus!
