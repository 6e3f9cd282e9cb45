//! Splitting a file's bytes into newline-delimited records.
//!
//! A record is the byte span between line feeds. A record that was
//! terminated by a line feed loses a carriage return directly before it, so
//! both plain and CRLF line endings delimit records; a final record without
//! a terminator is kept verbatim, and a trailing line feed does not produce
//! a phantom empty record.

use vstd::prelude::*;

verus! {

/// Byte value of the line feed that delimits records.
pub const LF: u8 = 10;

/// Byte value of the carriage return that may sit before a line feed.
pub const CR: u8 = 13;

/// Index of the first line feed in `b`, or `b.len()` if there is none.
pub open spec fn find_lf(b: Seq<u8>) -> int
    decreases b.len(),
{
    if b.len() == 0 {
        0
    } else if b[0] == LF {
        0
    } else {
        1 + find_lf(b.drop_first())
    }
}

/// A line-feed-terminated record without a carriage return directly before
/// its terminator.
pub open spec fn strip_cr(line: Seq<u8>) -> Seq<u8> {
    if line.len() > 0 && line.last() == CR {
        line.drop_last()
    } else {
        line
    }
}

/// The newline-delimited records of `b`, in file order.
pub open spec fn records_of(b: Seq<u8>) -> Seq<Seq<u8>>
    decreases b.len(),
{
    if b.len() == 0 {
        Seq::empty()
    } else {
        let i = find_lf(b);
        // the lower bound, though always true, is needed for termination
        if 0 <= i < b.len() {
            seq![strip_cr(b.take(i))] + records_of(b.skip(i + 1))
        } else {
            seq![b]
        }
    }
}

/// `find_lf` points at the first line feed, or past the end if there is none.
pub proof fn lemma_find_lf_bounds(b: Seq<u8>)
    ensures
        0 <= find_lf(b) <= b.len(),
        forall|k: int| 0 <= k < find_lf(b) ==> b[k] != LF,
        find_lf(b) < b.len() ==> b[find_lf(b)] == LF,
    decreases b.len(),
{
    if b.len() == 0 {
    } else if b[0] == LF {
    } else {
        lemma_find_lf_bounds(b.drop_first());
        assert forall|k: int| 0 <= k < find_lf(b) implies b[k] != LF by {
            if k > 0 {
                assert(b.drop_first()[k - 1] == b[k]);
            }
        }
    }
}

/// Any position with no line feed before it and a line feed (or the end) at
/// it is where `find_lf` points.
pub proof fn lemma_find_lf_is(b: Seq<u8>, j: int)
    requires
        0 <= j <= b.len(),
        forall|k: int| 0 <= k < j ==> b[k] != LF,
        j < b.len() ==> b[j] == LF,
    ensures
        find_lf(b) == j,
    decreases b.len(),
{
    if b.len() == 0 {
    } else if b[0] == LF {
    } else {
        assert(b[0] != LF);
        assert forall|k: int| 0 <= k < j - 1 implies b.drop_first()[k] != LF by {
            assert(b.drop_first()[k] == b[k + 1]);
        }
        if j - 1 < b.drop_first().len() {
            assert(b.drop_first()[j - 1] == b[j]);
        }
        lemma_find_lf_is(b.drop_first(), j - 1);
    }
}

/// The views of a vector of byte records.
pub open spec fn views_of(rs: Seq<Vec<u8>>) -> Seq<Seq<u8>> {
    rs.map_values(|v: Vec<u8>| v@)
}

/// Appending one record to a vector appends its view to the views.
pub proof fn lemma_views_push(rs: Seq<Vec<u8>>, v: Vec<u8>)
    ensures
        views_of(rs.push(v)) == views_of(rs).push(v@),
{
    assert(views_of(rs.push(v)) =~= views_of(rs).push(v@));
}

/// Unfolding `records_of` at the first record boundary: a span without line
/// feeds, its line feed, and the rest of the file.
pub proof fn lemma_records_step(cur: Seq<u8>, rest: Seq<u8>)
    requires
        forall|k: int| 0 <= k < cur.len() ==> cur[k] != LF,
    ensures
        records_of(cur + seq![LF] + rest) == seq![strip_cr(cur)] + records_of(rest),
{
    let b = cur + seq![LF] + rest;
    lemma_find_lf_is(b, cur.len() as int);
    assert(b.take(cur.len() as int) =~= cur);
    assert(b.skip(cur.len() as int + 1) =~= rest);
}

/// Bytes without any line feed form exactly one record, kept verbatim.
pub proof fn lemma_records_no_lf(cur: Seq<u8>)
    requires
        cur.len() > 0,
        forall|k: int| 0 <= k < cur.len() ==> cur[k] != LF,
    ensures
        records_of(cur) == seq![cur],
{
    lemma_find_lf_is(cur, cur.len() as int);
}

/// Records distribute over concatenation at a line-feed boundary: the
/// records of a file that ends with a line feed, followed by further bytes,
/// are the records of each part in turn.
pub proof fn lemma_records_concat(a: Seq<u8>, t: Seq<u8>)
    requires
        a.len() > 0,
        a.last() == LF,
    ensures
        records_of(a + t) == records_of(a) + records_of(t),
    decreases a.len(),
{
    lemma_find_lf_bounds(a);
    let i = find_lf(a);
    if i == a.len() {
        assert(a[a.len() - 1] != LF);
    } else {
        lemma_find_lf_is(a + t, i);
        assert((a + t).take(i) =~= a.take(i));
        assert((a + t).skip(i + 1) =~= a.skip(i + 1) + t);
        if i + 1 == a.len() {
            assert(a.skip(i + 1) =~= Seq::<u8>::empty());
            assert(a.skip(i + 1) + t =~= t);
            assert(seq![strip_cr(a.take(i))] + records_of(t) =~= (seq![strip_cr(a.take(i))]
                + records_of(a.skip(i + 1))) + records_of(t));
        } else {
            assert(a.skip(i + 1).last() == a.last());
            lemma_records_concat(a.skip(i + 1), t);
            assert(seq![strip_cr(a.take(i))] + (records_of(a.skip(i + 1)) + records_of(t)) =~= (
            seq![strip_cr(a.take(i))] + records_of(a.skip(i + 1))) + records_of(t));
        }
    }
}

/// A final record with no trailing line terminator is still emitted, as the
/// last record and verbatim: any bytes after the file's last line feed form
/// exactly one further record.
pub proof fn lemma_unterminated_last_record(a: Seq<u8>, t: Seq<u8>)
    requires
        a.len() == 0 || a.last() == LF,
        t.len() > 0,
        forall|k: int| 0 <= k < t.len() ==> t[k] != LF,
    ensures
        records_of(a + t) == records_of(a).push(t),
{
    lemma_records_no_lf(t);
    if a.len() == 0 {
        assert(a =~= Seq::<u8>::empty());
        assert(a + t =~= t);
        assert(seq![t] =~= records_of(Seq::<u8>::empty()).push(t));
    } else {
        lemma_records_concat(a, t);
        assert(records_of(a) + seq![t] =~= records_of(a).push(t));
    }
}

/// Splits a file's bytes into its newline-delimited records, in file order:
/// the executable form of `records_of`.
pub fn split_records(bytes: &Vec<u8>) -> (r: Vec<Vec<u8>>)
    ensures
        views_of(r@) == records_of(bytes@),
{
    let mut out: Vec<Vec<u8>> = Vec::new();
    let mut cur: Vec<u8> = Vec::new();
    let mut i: usize = 0;
    proof {
        assert(cur@ + bytes@.skip(0) =~= bytes@);
        assert(views_of(out@) + records_of(bytes@) =~= records_of(bytes@));
    }
    while i < bytes.len()
        invariant
            i <= bytes.len(),
            forall|k: int| 0 <= k < cur@.len() ==> cur@[k] != LF,
            views_of(out@) + records_of(cur@ + bytes@.skip(i as int)) == records_of(bytes@),
        decreases bytes.len() - i,
    {
        let b = bytes[i];
        if b == LF {
            let ghost prev = cur@;
            let ghost before = out@;
            proof {
                assert(prev + bytes@.skip(i as int) =~= prev + seq![LF] + bytes@.skip(
                    i as int + 1,
                ));
                lemma_records_step(prev, bytes@.skip(i as int + 1));
            }
            if cur.len() > 0 && cur[cur.len() - 1] == CR {
                cur.pop();
            }
            assert(cur@ == strip_cr(prev));
            out.push(cur);
            cur = Vec::new();
            proof {
                lemma_views_push(before, out@.last());
                assert(cur@ + bytes@.skip(i as int + 1) =~= bytes@.skip(i as int + 1));
                assert(views_of(before).push(strip_cr(prev)) + records_of(
                    bytes@.skip(i as int + 1),
                ) =~= views_of(before) + (seq![strip_cr(prev)] + records_of(
                    bytes@.skip(i as int + 1),
                )));
            }
        } else {
            let ghost prev = cur@;
            cur.push(b);
            proof {
                assert(cur@ + bytes@.skip(i as int + 1) =~= prev + bytes@.skip(i as int));
            }
        }
        i = i + 1;
    }
    proof {
        assert(cur@ + bytes@.skip(bytes@.len() as int) =~= cur@);
    }
    if cur.len() > 0 {
        let ghost before = out@;
        proof {
            lemma_records_no_lf(cur@);
        }
        out.push(cur);
        proof {
            lemma_views_push(before, out@.last());
            assert(views_of(before).push(out@.last()@) =~= views_of(before) + seq![out@.last()@]);
        }
    } else {
        proof {
            assert(views_of(out@) + records_of(Seq::<u8>::empty()) =~= views_of(out@));
            assert(cur@ =~= Seq::<u8>::empty());
        }
    }
    out
}

} // verus!
