//! Text as lines, and lines as tokens.

use vstd::prelude::*;

verus! {

/// The characters with the Unicode property `White_Space`.
pub open spec fn is_whitespace(c: char) -> bool {
    let u = c as u32;
    ||| 0x09 <= u <= 0x0d
    ||| u == 0x20
    ||| u == 0x85
    ||| u == 0xa0
    ||| u == 0x1680
    ||| 0x2000 <= u <= 0x200a
    ||| u == 0x2028
    ||| u == 0x2029
    ||| u == 0x202f
    ||| u == 0x205f
    ||| u == 0x3000
}

/// Whether `c` is white space.
pub fn whitespace(c: char) -> (r: bool)
    ensures
        r == is_whitespace(c),
{
    let u: u32 = c as u32;
    (0x09 <= u && u <= 0x0d) || u == 0x20 || u == 0x85 || u == 0xa0 || u == 0x1680 || (0x2000 <= u
        && u <= 0x200a) || u == 0x2028 || u == 0x2029 || u == 0x202f || u == 0x205f || u == 0x3000
}

/// The text of each of some vectors of characters.
pub open spec fn texts(v: Seq<Vec<char>>) -> Seq<Seq<char>> {
    Seq::new(v.len(), |i: int| v[i]@)
}

/// The lines of a text: a line feed ends a line and opens the next, any
/// other character belongs to the line that is open. There is always a
/// last line, empty where the text ends in a line feed.
pub open spec fn split_lines(text: Seq<char>) -> Seq<Seq<char>>
    decreases text.len(),
{
    if text.len() == 0 {
        seq![Seq::empty()]
    } else {
        let before = split_lines(text.drop_last());
        if text.last() == '\n' {
            before.push(Seq::empty())
        } else {
            before.drop_last().push(before.last().push(text.last()))
        }
    }
}

/// The lines of `lines`, with a line feed between each two, in one text.
pub open spec fn join_lines(lines: Seq<Seq<char>>) -> Seq<char>
    decreases lines.len(),
{
    if lines.len() == 0 {
        Seq::empty()
    } else if lines.len() == 1 {
        lines[0]
    } else {
        join_lines(lines.drop_last()).push('\n') + lines.last()
    }
}

/// Splitting loses nothing and cuts at every line feed: a text has at least
/// one line, no line holds a line feed, and the lines joined by line feeds
/// are the text.
pub proof fn lemma_lines_make_up_the_text(text: Seq<char>)
    ensures
        split_lines(text).len() >= 1,
        forall|i: int, j: int|
            0 <= i < split_lines(text).len() && 0 <= j < split_lines(text)[i].len()
                ==> #[trigger] split_lines(text)[i][j] != '\n',
        join_lines(split_lines(text)) == text,
    decreases text.len(),
{
    if text.len() == 0 {
        assert(join_lines(split_lines(text)) =~= text);
    } else {
        let front = text.drop_last();
        let before = split_lines(front);
        lemma_lines_make_up_the_text(front);
        let now = split_lines(text);
        if text.last() == '\n' {
            assert(now.drop_last() =~= before);
            assert(join_lines(now) =~= front.push('\n'));
            assert(front.push('\n') =~= text);
        } else {
            let grown = before.last().push(text.last());
            assert(now.last() == grown);
            if before.len() == 1 {
                assert(join_lines(now) =~= front.push(text.last()));
            } else {
                assert(now.drop_last() =~= before.drop_last());
                assert(join_lines(now) =~= (join_lines(before.drop_last()).push('\n')
                    + before.last()).push(text.last()));
            }
            assert(front.push(text.last()) =~= text);
        }
    }
}

/// Cuts a text into its lines.
pub fn lines_of(text: &Vec<char>) -> (r: Vec<Vec<char>>)
    ensures
        texts(r@) == split_lines(text@),
{
    let mut done: Vec<Vec<char>> = Vec::new();
    let mut current: Vec<char> = Vec::new();
    let mut i: usize = 0;
    while i < text.len()
        invariant
            i <= text@.len(),
            texts(done@).push(current@) == split_lines(text@.take(i as int)),
        decreases text@.len() - i,
    {
        let c = text[i];
        proof {
            assert(text@.take(i + 1).drop_last() =~= text@.take(i as int));
        }
        let ghost held = texts(done@);
        let ghost open = current@;
        if c == '\n' {
            done.push(current);
            current = Vec::new();
            proof {
                assert(texts(done@) =~= held.push(open));
                assert(texts(done@).push(current@) =~= held.push(open).push(Seq::empty()));
            }
        } else {
            current.push(c);
            proof {
                assert(held.push(open).drop_last() =~= held);
            }
        }
        i = i + 1;
    }
    proof {
        assert(text@.take(i as int) =~= text@);
    }
    let ghost held = texts(done@);
    let ghost open = current@;
    done.push(current);
    proof {
        assert(texts(done@) =~= held.push(open));
    }
    done
}

/// The tokens of a line: its longest stretches free of white space, from
/// left to right. A character that is no white space starts a token where
/// it follows white space or nothing, and extends the last token otherwise.
pub open spec fn split_tokens(line: Seq<char>) -> Seq<Seq<char>>
    decreases line.len(),
{
    if line.len() == 0 {
        Seq::empty()
    } else {
        let before = split_tokens(line.drop_last());
        let c = line.last();
        if is_whitespace(c) {
            before
        } else if line.len() >= 2 && !is_whitespace(line[line.len() - 2]) {
            before.drop_last().push(before.last().push(c))
        } else {
            before.push(seq![c])
        }
    }
}

/// No token is empty and none holds white space; a line that ends in a
/// character that is no white space has a token.
pub proof fn lemma_tokens_are_words(line: Seq<char>)
    ensures
        forall|i: int|
            0 <= i < split_tokens(line).len() ==> (#[trigger] split_tokens(line)[i]).len() > 0,
        forall|i: int, j: int|
            0 <= i < split_tokens(line).len() && 0 <= j < split_tokens(line)[i].len()
                ==> !is_whitespace(#[trigger] split_tokens(line)[i][j]),
        line.len() > 0 && !is_whitespace(line.last()) ==> split_tokens(line).len() > 0,
    decreases line.len(),
{
    if line.len() > 0 {
        let front = line.drop_last();
        let before = split_tokens(front);
        let now = split_tokens(line);
        let c = line.last();
        lemma_tokens_are_words(front);
        if is_whitespace(c) {
        } else if line.len() >= 2 && !is_whitespace(line[line.len() - 2]) {
            assert(front.last() == line[line.len() - 2]);
            let grown = before.last().push(c);
            assert forall|i: int| 0 <= i < now.len() implies (#[trigger] now[i]).len() > 0 && (
            forall|j: int| 0 <= j < now[i].len() ==> !is_whitespace(#[trigger] now[i][j])) by {
                if i < now.len() - 1 {
                    assert(now[i] == before[i]);
                } else {
                    assert(now[i] == grown);
                    assert forall|j: int| 0 <= j < grown.len() implies !is_whitespace(
                        #[trigger] grown[j],
                    ) by {
                        if j < before.last().len() {
                            assert(grown[j] == before.last()[j]);
                        }
                    }
                }
            }
        } else {
            assert forall|i: int| 0 <= i < now.len() implies (#[trigger] now[i]).len() > 0 && (
            forall|j: int| 0 <= j < now[i].len() ==> !is_whitespace(#[trigger] now[i][j])) by {
                if i < now.len() - 1 {
                    assert(now[i] == before[i]);
                }
            }
        }
    }
}

/// Cuts a line into its tokens.
pub fn tokens_of(line: &Vec<char>) -> (r: Vec<Vec<char>>)
    ensures
        texts(r@) == split_tokens(line@),
{
    let mut done: Vec<Vec<char>> = Vec::new();
    let mut current: Vec<char> = Vec::new();
    let mut inside = false;
    let mut i: usize = 0;
    while i < line.len()
        invariant
            i <= line@.len(),
            inside <==> i > 0 && !is_whitespace(line@[i - 1]),
            inside ==> texts(done@).push(current@) == split_tokens(line@.take(i as int)),
            !inside ==> current@.len() == 0 && texts(done@) == split_tokens(
                line@.take(i as int),
            ),
        decreases line@.len() - i,
    {
        let c = line[i];
        proof {
            assert(line@.take(i + 1).drop_last() =~= line@.take(i as int));
        }
        let ghost held = texts(done@);
        let ghost open = current@;
        if whitespace(c) {
            if inside {
                done.push(current);
                current = Vec::new();
                proof {
                    assert(texts(done@) =~= held.push(open));
                }
            }
            inside = false;
        } else {
            current.push(c);
            proof {
                if inside {
                    assert(held.push(open).drop_last() =~= held);
                } else {
                    assert(current@ =~= seq![c]);
                }
            }
            inside = true;
        }
        i = i + 1;
    }
    proof {
        assert(line@.take(i as int) =~= line@);
    }
    if inside {
        let ghost held = texts(done@);
        let ghost open = current@;
        done.push(current);
        proof {
            assert(texts(done@) =~= held.push(open));
        }
    }
    done
}

/// The characters of a string.
pub fn chars_of(text: &str) -> (r: Vec<char>)
    ensures
        r@ == text@,
{
    let mut out: Vec<char> = Vec::new();
    for c in it: text.chars()
        invariant
            out@ == it.seq().take(it.index() as int),
            it.seq() == text@,
    {
        out.push(c);
    }
    out
}

} // verus!
