//! Splitting byte text into lines and fields.
use vstd::prelude::*;

verus! {

/// The byte that ends a line.
pub const NEWLINE: u8 = 10;

/// The byte that may stand before the end of a line and is not part of it.
pub const RETURN: u8 = 13;

/// The pieces of `s` between the occurrences of `sep`, in order. There is
/// one piece more than there are separators; a piece is empty where two
/// separators touch or one stands at an end.
pub open spec fn split(s: Seq<u8>, sep: u8) -> Seq<Seq<u8>>
    decreases s.len(),
{
    if s.len() == 0 {
        seq![Seq::<u8>::empty()]
    } else {
        let before = split(s.drop_last(), sep);
        if s.last() == sep {
            before.push(Seq::<u8>::empty())
        } else {
            before.drop_last().push(before.last().push(s.last()))
        }
    }
}

/// `line` without one trailing carriage return.
pub open spec fn without_return(line: Seq<u8>) -> Seq<u8> {
    if line.len() > 0 && line.last() == RETURN {
        line.drop_last()
    } else {
        line
    }
}

/// The lines of a text. A line ends at a newline, or at the end of the text
/// where no newline stands there. A carriage return right before the
/// newline belongs to the line ending.
pub open spec fn lines(text: Seq<u8>) -> Seq<Seq<u8>> {
    let pieces = split(text, NEWLINE);
    let ended = pieces.drop_last().map_values(|line: Seq<u8>| without_return(line));
    if pieces.last().len() == 0 {
        ended
    } else {
        ended.push(pieces.last())
    }
}

/// What a list of byte vectors holds.
pub open spec fn contents(rows: Seq<Vec<u8>>) -> Seq<Seq<u8>> {
    rows.map_values(|row: Vec<u8>| row@)
}

/// The pieces in order with one `sep` between every two of them.
pub open spec fn join(pieces: Seq<Seq<u8>>, sep: u8) -> Seq<u8>
    decreases pieces.len(),
{
    if pieces.len() == 0 {
        Seq::empty()
    } else if pieces.len() == 1 {
        pieces[0]
    } else {
        join(pieces.drop_last(), sep).push(sep) + pieces.last()
    }
}

/// Splitting loses nothing and cuts at every separator: the pieces joined
/// by the separator are the text again, and no piece holds a separator.
pub proof fn lemma_split_joins_back(s: Seq<u8>, sep: u8)
    ensures
        split(s, sep).len() >= 1,
        join(split(s, sep), sep) == s,
        forall|i: int, k: int|
            0 <= i < split(s, sep).len() && 0 <= k < split(s, sep)[i].len() ==> split(
                s,
                sep,
            )[i][k] != sep,
    decreases s.len(),
{
    let pieces = split(s, sep);
    if s.len() == 0 {
        assert(join(pieces, sep) =~= s);
    } else {
        let before = split(s.drop_last(), sep);
        lemma_split_joins_back(s.drop_last(), sep);
        if s.last() == sep {
            assert(pieces.drop_last() =~= before);
            assert(join(pieces, sep) =~= s);
        } else {
            let grown = before.last().push(s.last());
            assert(pieces.last() == grown);
            assert(pieces.drop_last() =~= before.drop_last());
            if before.len() == 1 {
                assert(join(pieces, sep) =~= s);
            } else {
                assert(join(pieces, sep) =~= (join(before.drop_last(), sep).push(sep)
                    + before.last()).push(s.last()));
                assert(join(pieces, sep) =~= s);
            }
        }
    }
}

/// A split has at least one piece.
pub proof fn lemma_split_nonempty(s: Seq<u8>, sep: u8)
    ensures
        split(s, sep).len() >= 1,
    decreases s.len(),
{
    if s.len() > 0 {
        lemma_split_nonempty(s.drop_last(), sep);
    }
}

/// A copy of the bytes of `s`.
pub fn copy_bytes(s: &[u8]) -> (copy: Vec<u8>)
    ensures
        copy@ == s@,
{
    let mut copy: Vec<u8> = Vec::new();
    let mut i: usize = 0;
    while i < s.len()
        invariant
            i <= s.len(),
            copy@ == s@.take(i as int),
        decreases s.len() - i,
    {
        copy.push(s[i]);
        assert(s@.take(i + 1) =~= s@.take(i as int).push(s@[i as int]));
        i += 1;
    }
    assert(s@.take(s.len() as int) =~= s@);
    copy
}

/// Splits `s` at every `sep`.
pub fn split_bytes(s: &[u8], sep: u8) -> (pieces: Vec<Vec<u8>>)
    ensures
        contents(pieces@) == split(s@, sep),
{
    let mut done: Vec<Vec<u8>> = Vec::new();
    let mut piece: Vec<u8> = Vec::new();
    let mut i: usize = 0;
    assert(contents(done@).push(piece@) =~= split(s@.take(0), sep));
    while i < s.len()
        invariant
            i <= s.len(),
            contents(done@).push(piece@) == split(s@.take(i as int), sep),
        decreases s.len() - i,
    {
        let ghost before = split(s@.take(i as int), sep);
        let ghost now = s@.take(i + 1);
        assert(now.drop_last() =~= s@.take(i as int));
        assert(now.last() == s@[i as int]);
        if s[i] == sep {
            let ghost full = piece@;
            done.push(piece);
            piece = Vec::new();
            assert(contents(done@) =~= before);
            assert(contents(done@).push(piece@) =~= split(now, sep));
        } else {
            let ghost short = piece@;
            piece.push(s[i]);
            assert(before.drop_last() =~= contents(done@));
            assert(before.last() == short);
            assert(contents(done@).push(piece@) =~= split(now, sep));
        }
        i += 1;
    }
    assert(s@.take(s.len() as int) =~= s@);
    let ghost last = piece@;
    let ghost front = contents(done@);
    done.push(piece);
    assert(contents(done@) =~= front.push(last));
    done
}

/// Splits a text into its lines.
pub fn split_lines(text: &[u8]) -> (rows: Vec<Vec<u8>>)
    ensures
        contents(rows@) == lines(text@),
{
    let mut rows = split_bytes(text, NEWLINE);
    proof {
        lemma_split_nonempty(text@, NEWLINE);
    }
    let ghost pieces = split(text@, NEWLINE);
    let count = rows.len() - 1;
    let mut i: usize = 0;
    while i < count
        invariant
            i <= count,
            count + 1 == rows@.len(),
            pieces.len() == rows@.len(),
            forall|k: int| 0 <= k < i ==> (#[trigger] rows@[k])@ == without_return(pieces[k]),
            forall|k: int| i <= k < rows@.len() ==> (#[trigger] rows@[k])@ == pieces[k],
        decreases count - i,
    {
        let n = rows[i].len();
        if n > 0 && rows[i][n - 1] == RETURN {
            let ghost full = rows@[i as int]@;
            rows[i].pop();
            assert(rows@[i as int]@ =~= full.drop_last());
        }
        i += 1;
    }
    let last = rows.pop().unwrap();
    assert(contents(rows@) =~= pieces.drop_last().map_values(|line: Seq<u8>| without_return(line)));
    if last.len() > 0 {
        let ghost front = contents(rows@);
        rows.push(last);
        assert(contents(rows@) =~= front.push(pieces.last()));
    }
    rows
}

} // verus!
