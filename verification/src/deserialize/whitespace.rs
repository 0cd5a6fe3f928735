//! Whitespace, comments, and the separators between the items of a container.

use vstd::prelude::*;
use crate::ascii::{CARRIAGE_RETURN, COMMA, LINE_FEED, SLASH, SPACE, STAR, TAB};
use crate::error::{Error, ErrorKind};
use crate::peek_reader::{after_first, count_through, lemma_count_before_bound, PeekReader};

verus! {

/// Whether `byte` is a space, a tab, a carriage return or a line feed.
pub open spec fn is_whitespace(byte: u8) -> bool {
    byte == SPACE || byte == TAB || byte == CARRIAGE_RETURN || byte == LINE_FEED
}

/// What follows the first `*/` in `s`, the inside of a block comment; `None`
/// where the comment is not closed.
pub open spec fn after_comment_end(s: Seq<u8>) -> Option<Seq<u8>>
    decreases s.len(),
{
    if s.len() < 2 {
        None
    } else if s[0] == STAR && s[1] == SLASH {
        Some(s.skip(2))
    } else {
        after_comment_end(s.skip(1))
    }
}

/// What follows the first `byte` is what is left after the bytes up to it.
pub proof fn lemma_after_first_len(s: Seq<u8>, byte: u8)
    ensures
        after_first(s, byte).len() <= s.len(),
        after_first(s, byte).len() + count_through(s, byte) == s.len(),
{
    lemma_count_before_bound(s, byte);
}

/// What follows a block comment is shorter than the comment with it, by
/// two bytes at least.
pub proof fn lemma_after_comment_end_len(s: Seq<u8>)
    ensures
        after_comment_end(s) matches Some(rest) ==> rest.len() + 2 <= s.len(),
    decreases s.len(),
{
    if s.len() >= 2 && !(s[0] == STAR && s[1] == SLASH) {
        lemma_after_comment_end_len(s.skip(1));
    }
}

/// What is left of `s` after the whitespace and the comments that it begins
/// with. A line comment runs from `//` to the end of its line, a block
/// comment from `/*` to the first `*/`; one that the input ends in is an
/// error. A `/` that opens no comment stays.
pub open spec fn skip_whitespace_spec(s: Seq<u8>) -> Result<Seq<u8>, ErrorKind>
    decreases s.len(),
{
    if s.len() == 0 {
        Ok(s)
    } else if is_whitespace(s[0]) {
        skip_whitespace_spec(s.skip(1))
    } else if s[0] == SLASH && s.len() >= 2 && s[1] == SLASH {
        proof {
            lemma_after_first_len(s.skip(2), LINE_FEED);
        }
        skip_whitespace_spec(after_first(s.skip(2), LINE_FEED))
    } else if s[0] == SLASH && s.len() >= 2 && s[1] == STAR {
        proof {
            lemma_after_comment_end_len(s.skip(2));
        }
        match after_comment_end(s.skip(2)) {
            Some(rest) => skip_whitespace_spec(rest),
            None => Err(ErrorKind::UnexpectedEof),
        }
    } else {
        Ok(s)
    }
}

/// Whether a separator stands at the start of `s`, and what is left after
/// it. Spaces, tabs and block comments may come first; the separator is a
/// comma, a line feed, a carriage return with a line feed, or a line comment
/// with its line. Where there is none, `s` is left as the spaces, tabs and
/// block comments found it.
pub open spec fn parse_sep_spec(s: Seq<u8>) -> Result<(bool, Seq<u8>), ErrorKind>
    decreases s.len(),
{
    if s.len() == 0 {
        Ok((false, s))
    } else if s[0] == SPACE || s[0] == TAB {
        parse_sep_spec(s.skip(1))
    } else if s[0] == SLASH && s.len() >= 2 && s[1] == SLASH {
        Ok((true, after_first(s.skip(2), LINE_FEED)))
    } else if s[0] == SLASH && s.len() >= 2 && s[1] == STAR {
        proof {
            lemma_after_comment_end_len(s.skip(2));
        }
        match after_comment_end(s.skip(2)) {
            Some(rest) => parse_sep_spec(rest),
            None => Err(ErrorKind::UnexpectedEof),
        }
    } else if s[0] == CARRIAGE_RETURN && s.len() >= 2 && s[1] == LINE_FEED {
        Ok((true, s.skip(2)))
    } else if s[0] == LINE_FEED || s[0] == COMMA {
        Ok((true, s.skip(1)))
    } else {
        Ok((false, s))
    }
}

/// Whether the reader stands where `expected` says it should after a call that
/// returned `r`: on the rest after success, with an error of the kind on failure.
pub open spec fn skipped_as(
    r: Result<(), Error>,
    left: Seq<u8>,
    expected: Result<Seq<u8>, ErrorKind>,
) -> bool {
    match expected {
        Ok(rest) => r is Ok && left == rest,
        Err(kind) => r matches Err(e) && e.kind == kind,
    }
}

/// Reads the inside of a block comment up to and with the first `*/`.
pub fn skip_block_comment(reader: &mut PeekReader) -> (r: Result<(), Error>)
    ensures
        skipped_as(
            r,
            final(reader).remaining(),
            match after_comment_end(old(reader).remaining()) {
                Some(rest) => Ok(rest),
                None => Err(ErrorKind::UnexpectedEof),
            },
        ),
{
    let ghost start = reader.remaining();
    let mut star: bool = false;
    loop
        invariant
            start == old(reader).remaining(),
            after_comment_end(start) == after_comment_end(
                if star {
                    seq![STAR] + reader.remaining()
                } else {
                    reader.remaining()
                },
            ),
        decreases reader.remaining().len(),
    {
        let ghost rem = reader.remaining();
        let next: Option<u8> = reader.read_byte()?;
        match next {
            None => {
                return Err(Error::unexpected_eof("unclosed block comment"));
            },
            Some(byte) => {
                proof {
                    let with_star = seq![STAR] + rem;
                    assert(with_star.skip(1) =~= rem);
                    if star && byte == SLASH {
                        assert(with_star.skip(2) =~= rem.skip(1));
                    }
                    if byte == STAR {
                        assert(seq![STAR] + rem.skip(1) =~= rem);
                    }
                }
                if star && byte == SLASH {
                    return Ok(());
                }
                star = byte == STAR;
            },
        }
    }
}

/// Reads whitespace and comments up to the first byte that is neither, or
/// to the end of the input.
pub fn skip_whitespace(reader: &mut PeekReader) -> (r: Result<(), Error>)
    ensures
        skipped_as(r, final(reader).remaining(), skip_whitespace_spec(old(reader).remaining())),
{
    loop
        invariant
            skip_whitespace_spec(reader.remaining()) == skip_whitespace_spec(
                old(reader).remaining(),
            ),
        decreases reader.remaining().len(),
    {
        let ghost rem = reader.remaining();
        let next: Option<u8> = reader.peek()?;
        let next_byte: u8 = match next {
            Some(byte) => byte,
            None => {
                return Ok(());
            },
        };
        if next_byte == SPACE || next_byte == CARRIAGE_RETURN || next_byte == LINE_FEED
            || next_byte == TAB {
            reader.consume(1);
            continue ;
        }
        if next_byte != SLASH {
            return Ok(());
        }
        let pair: Option<[u8; 2]> = reader.peek2()?;
        let second: u8 = match pair {
            Some(p) => p[1],
            None => {
                return Ok(());
            },
        };
        if second == SLASH {
            reader.consume(2);
            reader.skip_until(LINE_FEED)?;
            proof {
                lemma_after_first_len(rem.skip(2), LINE_FEED);
            }
        } else if second == STAR {
            reader.consume(2);
            proof {
                lemma_after_comment_end_len(rem.skip(2));
            }
            skip_block_comment(reader)?;
        } else {
            return Ok(());
        }
    }
}

/// Reads a separator, if one stands next, and says whether it did. Spaces,
/// tabs and block comments before it are read in either case.
pub fn parse_sep(reader: &mut PeekReader) -> (r: Result<bool, Error>)
    ensures
        match parse_sep_spec(old(reader).remaining()) {
            Ok((found, rest)) => r == Ok::<bool, Error>(found) && final(reader).remaining() == rest,
            Err(kind) => r matches Err(e) && e.kind == kind,
        },
{
    loop
        invariant
            parse_sep_spec(reader.remaining()) == parse_sep_spec(old(reader).remaining()),
        decreases reader.remaining().len(),
    {
        let ghost rem = reader.remaining();
        let next: Option<u8> = reader.peek()?;
        let next_byte: u8 = match next {
            Some(byte) => byte,
            None => {
                return Ok(false);
            },
        };
        if next_byte == SPACE || next_byte == TAB {
            reader.consume(1);
        } else if next_byte == LINE_FEED || next_byte == COMMA {
            reader.consume(1);
            return Ok(true);
        } else if next_byte == SLASH || next_byte == CARRIAGE_RETURN {
            let pair: Option<[u8; 2]> = reader.peek2()?;
            let second: u8 = match pair {
                Some(p) => p[1],
                None => {
                    return Ok(false);
                },
            };
            if next_byte == CARRIAGE_RETURN {
                if second == LINE_FEED {
                    reader.consume(2);
                    return Ok(true);
                }
                return Ok(false);
            }
            if second == SLASH {
                // A line comment ends its line, and so separates.
                reader.consume(2);
                reader.skip_until(LINE_FEED)?;
                return Ok(true);
            } else if second == STAR {
                reader.consume(2);
                proof {
                    lemma_after_comment_end_len(rem.skip(2));
                }
                skip_block_comment(reader)?;
            } else {
                return Ok(false);
            }
        } else {
            return Ok(false);
        }
    }
}

/// Skipping whitespace never adds bytes.
pub proof fn lemma_skip_whitespace_len(s: Seq<u8>)
    ensures
        skip_whitespace_spec(s) matches Ok(rest) ==> rest.len() <= s.len(),
    decreases s.len(),
{
    if s.len() == 0 {
    } else if is_whitespace(s[0]) {
        lemma_skip_whitespace_len(s.skip(1));
    } else if s[0] == SLASH && s.len() >= 2 && s[1] == SLASH {
        lemma_after_first_len(s.skip(2), LINE_FEED);
        lemma_skip_whitespace_len(after_first(s.skip(2), LINE_FEED));
    } else if s[0] == SLASH && s.len() >= 2 && s[1] == STAR {
        lemma_after_comment_end_len(s.skip(2));
        match after_comment_end(s.skip(2)) {
            Some(rest) => {
                lemma_skip_whitespace_len(rest);
            },
            None => {},
        }
    }
}

/// Reading a separator never adds bytes.
pub proof fn lemma_parse_sep_len(s: Seq<u8>)
    ensures
        parse_sep_spec(s) matches Ok((_, rest)) ==> rest.len() <= s.len(),
    decreases s.len(),
{
    if s.len() == 0 {
    } else if s[0] == SPACE || s[0] == TAB {
        lemma_parse_sep_len(s.skip(1));
    } else if s[0] == SLASH && s.len() >= 2 && s[1] == SLASH {
        lemma_after_first_len(s.skip(2), LINE_FEED);
    } else if s[0] == SLASH && s.len() >= 2 && s[1] == STAR {
        lemma_after_comment_end_len(s.skip(2));
        match after_comment_end(s.skip(2)) {
            Some(rest) => {
                lemma_parse_sep_len(rest);
            },
            None => {},
        }
    }
}

/// Whether `s` holds spaces and tabs only.
pub open spec fn is_blank(s: Seq<u8>) -> bool {
    forall|i: int| 0 <= i < s.len() ==> #[trigger] s[i] == SPACE || s[i] == TAB
}

/// Whether `s` holds whitespace only.
pub open spec fn is_space(s: Seq<u8>) -> bool {
    forall|i: int| 0 <= i < s.len() ==> is_whitespace(#[trigger] s[i])
}

/// Whether `*/` stands nowhere in `s`.
pub open spec fn has_no_comment_end(s: Seq<u8>) -> bool {
    forall|i: int| 0 <= i < s.len() - 1 ==> !(#[trigger] s[i] == STAR && s[i + 1] == SLASH)
}

/// Whether no line feed stands in `s`.
pub open spec fn has_no_line_feed(s: Seq<u8>) -> bool {
    forall|i: int| 0 <= i < s.len() ==> #[trigger] s[i] != LINE_FEED
}

/// Whitespace before a text is skipped with the whitespace that the text
/// begins with.
pub proof fn lemma_leading_whitespace(space: Seq<u8>, s: Seq<u8>)
    requires
        is_space(space),
    ensures
        skip_whitespace_spec(space + s) == skip_whitespace_spec(s),
    decreases space.len(),
{
    if space.len() == 0 {
        assert(space + s =~= s);
    } else {
        let all = space + s;
        assert(all[0] == space[0]);
        assert(is_whitespace(space[0]));
        assert(all.skip(1) =~= space.skip(1) + s);
        assert forall|i: int| 0 <= i < space.skip(1).len() implies is_whitespace(
            #[trigger] space.skip(1)[i],
        ) by {
            assert(space.skip(1)[i] == space[i + 1]);
        }
        lemma_leading_whitespace(space.skip(1), s);
    }
}

proof fn lemma_after_line(comment: Seq<u8>, s: Seq<u8>)
    requires
        has_no_line_feed(comment),
    ensures
        after_first(comment + seq![LINE_FEED] + s, LINE_FEED) == s,
{
    let all = comment + seq![LINE_FEED] + s;
    assert forall|i: int| 0 <= i < comment.len() implies all[i] != LINE_FEED by {
        assert(all[i] == comment[i]);
    }
    assert(all[comment.len() as int] == LINE_FEED);
    crate::peek_reader::lemma_count_before_is(all, LINE_FEED, comment.len() as int);
    assert(all.skip(comment.len() as int + 1) =~= s);
}

proof fn lemma_after_comment(comment: Seq<u8>, s: Seq<u8>)
    requires
        has_no_comment_end(comment),
    ensures
        after_comment_end(comment + seq![STAR, SLASH] + s) == Some(s),
    decreases comment.len(),
{
    let all = comment + seq![STAR, SLASH] + s;
    if comment.len() == 0 {
        assert(all[0] == STAR && all[1] == SLASH);
        assert(all.skip(2) =~= s);
    } else {
        assert(all[0] == comment[0]);
        if comment.len() >= 2 {
            assert(all[1] == comment[1]);
            assert(!(comment[0] == STAR && comment[1] == SLASH));
        } else {
            assert(all[1] == STAR);
        }
        let tail = comment.skip(1);
        assert(all.skip(1) =~= tail + seq![STAR, SLASH] + s);
        assert forall|i: int| 0 <= i < tail.len() - 1 implies !(#[trigger] tail[i] == STAR
            && tail[i + 1] == SLASH) by {
            assert(tail[i] == comment[i + 1]);
            assert(!(comment[i + 1] == STAR && comment[i + 2] == SLASH));
        }
        lemma_after_comment(tail, s);
    }
}

/// A line comment is skipped as whitespace is.
pub proof fn lemma_line_comment_is_whitespace(comment: Seq<u8>, s: Seq<u8>)
    requires
        has_no_line_feed(comment),
    ensures
        skip_whitespace_spec(seq![SLASH, SLASH] + comment + seq![LINE_FEED] + s)
            == skip_whitespace_spec(s),
{
    let all = seq![SLASH, SLASH] + comment + seq![LINE_FEED] + s;
    assert(all[0] == SLASH && all[1] == SLASH);
    assert(all.skip(2) =~= comment + seq![LINE_FEED] + s);
    lemma_after_line(comment, s);
}

/// A block comment is skipped as whitespace is.
pub proof fn lemma_block_comment_is_whitespace(comment: Seq<u8>, s: Seq<u8>)
    requires
        has_no_comment_end(comment),
    ensures
        skip_whitespace_spec(seq![SLASH, STAR] + comment + seq![STAR, SLASH] + s)
            == skip_whitespace_spec(s),
{
    let all = seq![SLASH, STAR] + comment + seq![STAR, SLASH] + s;
    assert(all[0] == SLASH && all[1] == STAR);
    assert(all.skip(2) =~= comment + seq![STAR, SLASH] + s);
    lemma_after_comment(comment, s);
}

/// A comma, a line feed, a carriage return with a line feed, and a line
/// comment separate alike: each is read, and what follows it is left.
pub proof fn lemma_every_separator(comment: Seq<u8>, s: Seq<u8>)
    requires
        has_no_line_feed(comment),
    ensures
        parse_sep_spec(seq![COMMA] + s) == Ok::<(bool, Seq<u8>), ErrorKind>((true, s)),
        parse_sep_spec(seq![LINE_FEED] + s) == Ok::<(bool, Seq<u8>), ErrorKind>((true, s)),
        parse_sep_spec(seq![CARRIAGE_RETURN, LINE_FEED] + s) == Ok::<(bool, Seq<u8>), ErrorKind>(
            (true, s),
        ),
        parse_sep_spec(seq![SLASH, SLASH] + comment + seq![LINE_FEED] + s) == Ok::<
            (bool, Seq<u8>),
            ErrorKind,
        >((true, s)),
{
    assert((seq![COMMA] + s).skip(1) =~= s);
    assert((seq![LINE_FEED] + s).skip(1) =~= s);
    assert((seq![CARRIAGE_RETURN, LINE_FEED] + s).skip(2) =~= s);
    let all = seq![SLASH, SLASH] + comment + seq![LINE_FEED] + s;
    assert(all[0] == SLASH && all[1] == SLASH);
    assert(all.skip(2) =~= comment + seq![LINE_FEED] + s);
    lemma_after_line(comment, s);
}

/// Spaces and tabs before a separator change nothing.
pub proof fn lemma_blank_before_separator(blank: Seq<u8>, s: Seq<u8>)
    requires
        is_blank(blank),
    ensures
        parse_sep_spec(blank + s) == parse_sep_spec(s),
    decreases blank.len(),
{
    if blank.len() == 0 {
        assert(blank + s =~= s);
    } else {
        let all = blank + s;
        assert(all[0] == blank[0]);
        assert(blank[0] == SPACE || blank[0] == TAB);
        assert(all.skip(1) =~= blank.skip(1) + s);
        assert forall|i: int| 0 <= i < blank.skip(1).len() implies #[trigger] blank.skip(1)[i]
            == SPACE || blank.skip(1)[i] == TAB by {
            assert(blank.skip(1)[i] == blank[i + 1]);
        }
        lemma_blank_before_separator(blank.skip(1), s);
    }
}

/// A block comment before a separator changes nothing.
pub proof fn lemma_block_comment_before_separator(comment: Seq<u8>, s: Seq<u8>)
    requires
        has_no_comment_end(comment),
    ensures
        parse_sep_spec(seq![SLASH, STAR] + comment + seq![STAR, SLASH] + s) == parse_sep_spec(s),
{
    let all = seq![SLASH, STAR] + comment + seq![STAR, SLASH] + s;
    assert(all[0] == SLASH && all[1] == STAR);
    assert(all.skip(2) =~= comment + seq![STAR, SLASH] + s);
    lemma_after_comment(comment, s);
}

} // verus!
