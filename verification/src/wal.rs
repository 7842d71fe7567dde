//! The layout of the write-ahead log file: one record per line, oldest
//! first. What a record's line holds is the caller's encoding; this module
//! places the lines in the file and finds them again.

use crate::error::KvError;
use vstd::prelude::*;
use vstd::string::*;

verus! {

/// The byte that ends a line.
pub const LINE_FEED: u8 = 10;

/// The byte that is dropped from the end of a line that was ended.
pub const CARRIAGE_RETURN: u8 = 13;

/// The text of the error for a record that cannot be framed.
pub open spec fn unframeable_text() -> Seq<char> {
    "a log record must hold no line feed and must not end in a carriage return"@
}

/// A line that comes back from the file as it went in: it holds no line
/// feed and does not end in a carriage return.
pub open spec fn frameable(line: Seq<u8>) -> bool {
    &&& !line.contains(LINE_FEED)
    &&& line.len() > 0 ==> line.last() != CARRIAGE_RETURN
}

/// The file's content is empty or ends in a line feed: the next record
/// starts a line of its own.
pub open spec fn complete(content: Seq<u8>) -> bool {
    content.len() > 0 ==> content.last() == LINE_FEED
}

/// The stretches of bytes between the line feeds of `content`, in file
/// order. There is one more of them than there are line feeds.
pub open spec fn pieces(content: Seq<u8>) -> Seq<Seq<u8>>
    decreases content.len(),
{
    if content.len() == 0 {
        seq![Seq::empty()]
    } else {
        let before = pieces(content.drop_last());
        if content.last() == LINE_FEED {
            before.push(Seq::empty())
        } else {
            before.update(before.len() - 1, before.last().push(content.last()))
        }
    }
}

/// A line without the carriage return at its end, if it has one.
pub open spec fn without_return(line: Seq<u8>) -> Seq<u8> {
    if line.len() > 0 && line.last() == CARRIAGE_RETURN {
        line.drop_last()
    } else {
        line
    }
}

/// The lines of the log file, in file order. Each stretch that a line feed
/// ends is a line, less a carriage return at its end; what follows the last
/// line feed is a line as it stands, unless it is empty.
pub open spec fn lines(content: Seq<u8>) -> Seq<Seq<u8>> {
    let all = pieces(content);
    let ended = all.drop_last().map_values(|piece: Seq<u8>| without_return(piece));
    if all.last().len() == 0 {
        ended
    } else {
        ended.push(all.last())
    }
}

/// The byte strings that a list of buffers holds.
pub open spec fn texts(buffers: Seq<Vec<u8>>) -> Seq<Seq<u8>> {
    buffers.map_values(|buffer: Vec<u8>| buffer@)
}

/// There is always a last piece.
proof fn lemma_pieces_nonempty(content: Seq<u8>)
    ensures
        pieces(content).len() >= 1,
    decreases content.len(),
{
    if content.len() > 0 {
        lemma_pieces_nonempty(content.drop_last());
    }
}

/// Bytes other than line feeds, written after `content`, lengthen its last
/// piece and leave the pieces before it alone.
proof fn lemma_pieces_extend(content: Seq<u8>, line: Seq<u8>)
    requires
        !line.contains(LINE_FEED),
    ensures
        pieces(content).len() >= 1,
        pieces(content + line) == pieces(content).drop_last().push(pieces(content).last() + line),
    decreases line.len(),
{
    lemma_pieces_nonempty(content);
    let old_pieces = pieces(content);
    if line.len() == 0 {
        assert(content + line =~= content);
        assert(old_pieces.last() + line =~= old_pieces.last());
    } else {
        let front = line.drop_last();
        assert forall|i: int| 0 <= i < front.len() implies front[i] != LINE_FEED by {
            assert(line[i] == front[i]);
        }
        lemma_pieces_extend(content, front);
        assert((content + line).drop_last() =~= content + front);
        assert((old_pieces.last() + front).push(line.last()) =~= old_pieces.last() + line);
    }
}

/// Records come back in the order in which they were appended: after a
/// framed line is written at the end of a complete file, the file's lines
/// are the lines it had, then that line.
pub proof fn lemma_append_keeps_order(content: Seq<u8>, line: Seq<u8>)
    requires
        complete(content),
        frameable(line),
    ensures
        complete(content + line.push(LINE_FEED)),
        lines(content + line.push(LINE_FEED)) == lines(content).push(line),
{
    let old_pieces = pieces(content);
    let written = content + line.push(LINE_FEED);
    lemma_pieces_extend(content, line);
    lemma_complete_ends_empty(content);
    assert(written.drop_last() =~= content + line);
    assert(old_pieces.last() + line =~= line);
    assert(pieces(written).drop_last() =~= old_pieces.drop_last().push(line));
}

/// The file after each of the lines, in order, was framed and written at
/// its end.
pub open spec fn appended(content: Seq<u8>, added: Seq<Seq<u8>>) -> Seq<u8>
    decreases added.len(),
{
    if added.len() == 0 {
        content
    } else {
        appended(content, added.drop_last()) + added.last().push(LINE_FEED)
    }
}

/// However many records are appended to a complete file, its lines are the
/// lines it had, then the records in the order of their appends.
pub proof fn lemma_appends_keep_order(content: Seq<u8>, added: Seq<Seq<u8>>)
    requires
        complete(content),
        forall|i: int| 0 <= i < added.len() ==> frameable(#[trigger] added[i]),
    ensures
        complete(appended(content, added)),
        lines(appended(content, added)) == lines(content) + added,
    decreases added.len(),
{
    if added.len() > 0 {
        let earlier = added.drop_last();
        lemma_appends_keep_order(content, earlier);
        lemma_append_keeps_order(appended(content, earlier), added.last());
        assert((lines(content) + earlier).push(added.last()) =~= lines(content) + added);
    }
}

/// A complete file has nothing after its last line feed.
proof fn lemma_complete_ends_empty(content: Seq<u8>)
    requires
        complete(content),
    ensures
        pieces(content).len() >= 1,
        pieces(content).last().len() == 0,
{
    lemma_pieces_nonempty(content);
    if content.len() > 0 {
        lemma_pieces_nonempty(content.drop_last());
    }
}

/// An empty file, as truncation leaves it, holds no line.
pub proof fn lemma_empty_file_has_no_lines()
    ensures
        complete(Seq::<u8>::empty()),
        lines(Seq::<u8>::empty()) == Seq::<Seq<u8>>::empty(),
{
}

/// The bytes to append to the log file for one record: its line and a line
/// feed. A line that would not come back as it went in is refused.
pub fn frame(line: &[u8]) -> (res: Result<Vec<u8>, KvError>)
    ensures
        match res {
            Ok(framed) => frameable(line@) && framed@ == line@.push(LINE_FEED),
            Err(error) => {
                &&& !frameable(line@)
                &&& error matches KvError::Serialization(detail)
                &&& detail@ == unframeable_text()
            },
        },
{
    let mut framed: Vec<u8> = Vec::new();
    let mut i: usize = 0;
    while i < line.len()
        invariant
            i <= line.len(),
            framed@ == line@.take(i as int),
            !line@.take(i as int).contains(LINE_FEED),
        decreases line.len() - i,
    {
        let byte = line[i];
        if byte == LINE_FEED {
            return Err(unframeable());
        }
        framed.push(byte);
        i += 1;
        assert(line@.take(i as int) =~= line@.take(i - 1).push(byte));
    }
    assert(line@.take(i as int) =~= line@);
    if i > 0 && line[i - 1] == CARRIAGE_RETURN {
        return Err(unframeable());
    }
    framed.push(LINE_FEED);
    Ok(framed)
}

fn unframeable() -> (res: KvError)
    ensures
        res matches KvError::Serialization(detail) && detail@ == unframeable_text(),
{
    KvError::Serialization(
        String::from_str(
            "a log record must hold no line feed and must not end in a carriage return",
        ),
    )
}

/// The lines of the log file, in file order.
pub fn split_lines(content: &[u8]) -> (res: Vec<Vec<u8>>)
    ensures
        texts(res@) == lines(content@),
{
    let mut found: Vec<Vec<u8>> = Vec::new();
    let mut current: Vec<u8> = Vec::new();
    let mut i: usize = 0;
    assert(texts(found@) =~= pieces(content@.take(0)).drop_last().map_values(
        |piece: Seq<u8>| without_return(piece),
    ));
    while i < content.len()
        invariant
            i <= content.len(),
            pieces(content@.take(i as int)).len() >= 1,
            texts(found@) == pieces(content@.take(i as int)).drop_last().map_values(
                |piece: Seq<u8>| without_return(piece),
            ),
            current@ == pieces(content@.take(i as int)).last(),
        decreases content.len() - i,
    {
        let ghost before = pieces(content@.take(i as int));
        let ghost ended = texts(found@);
        let byte = content[i];
        assert(content@.take(i + 1).drop_last() =~= content@.take(i as int));
        if byte == LINE_FEED {
            let n = current.len();
            if n > 0 && current[n - 1] == CARRIAGE_RETURN {
                current.pop();
            }
            found.push(current);
            current = Vec::new();
            proof {
                let after = pieces(content@.take(i + 1));
                assert(after.drop_last() =~= before);
                assert(texts(found@) =~= ended.push(without_return(before.last())));
                assert(texts(found@) =~= after.drop_last().map_values(
                    |piece: Seq<u8>| without_return(piece),
                ));
            }
        } else {
            current.push(byte);
            assert(pieces(content@.take(i + 1)).drop_last() =~= before.drop_last());
        }
        i += 1;
    }
    assert(content@.take(i as int) =~= content@);
    if current.len() > 0 {
        let ghost ended = texts(found@);
        found.push(current);
        assert(texts(found@) =~= ended.push(current@));
    }
    found
}

} // verus!
