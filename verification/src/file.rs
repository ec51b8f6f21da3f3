//! The text formats of vocabulary and merge lists: one token (or one merge of two
//! tokens separated by a space) per line, every byte shown as its GPT-2 character.
use vstd::prelude::*;

use crate::encode::{
    bytes_chars, bytes_to_string, chars_bytes, is_byte_char, law_bytes_roundtrip, shows_byte,
    lemma_byte_char_roundtrip, string_to_bytes,
};
use crate::text::{is_white_space, str_trim_end, string_push, trim_end};
use crate::types::TokenBytes;

verus! {

/// The pieces of `cs` between newline characters, as `str::split('\n')` yields them.
pub open spec fn split_newlines(cs: Seq<char>) -> Seq<Seq<char>>
    decreases cs.len(),
{
    if cs.len() == 0 {
        seq![Seq::<char>::empty()]
    } else {
        let pre = split_newlines(cs.drop_last());
        if cs.last() == '\n' {
            pre.push(Seq::<char>::empty())
        } else {
            pre.update(pre.len() - 1, pre.last().push(cs.last()))
        }
    }
}

/// A line without the carriage return that ended it.
pub open spec fn strip_cr(l: Seq<char>) -> Seq<char> {
    if l.len() > 0 && l.last() == '\r' {
        l.drop_last()
    } else {
        l
    }
}

/// The lines of a text, as `str::lines` yields them: a line ends at `\n` or
/// `\r\n`, and an empty piece after the last newline is no line.
pub open spec fn text_lines(cs: Seq<char>) -> Seq<Seq<char>> {
    let p = split_newlines(cs);
    let done = p.drop_last().map_values(|l: Seq<char>| strip_cr(l));
    if p.last().len() == 0 {
        done
    } else {
        done.push(p.last())
    }
}

/// The lines of a file's content once trailing white space is removed.
pub open spec fn content_lines(content: Seq<char>) -> Seq<Seq<char>> {
    text_lines(trim_end(content))
}

/// Every character shows a byte.
pub open spec fn all_byte_chars(cs: Seq<char>) -> bool {
    forall|j: int| 0 <= j < cs.len() ==> is_byte_char(#[trigger] cs[j])
}

/// Lines joined with a newline between each two of them.
pub open spec fn join_lines(ls: Seq<Seq<char>>) -> Seq<char>
    decreases ls.len(),
{
    if ls.len() == 0 {
        Seq::empty()
    } else if ls.len() == 1 {
        ls[0]
    } else {
        join_lines(ls.drop_last()) + seq!['\n'] + ls.last()
    }
}

/// The byte sequences of a list of tokens.
pub open spec fn tokens_view(v: Seq<TokenBytes>) -> Seq<Seq<u8>> {
    v.map_values(|t: TokenBytes| t@)
}

/// The line of the vocabulary format for one token.
pub open spec fn vocab_line(t: Seq<u8>) -> Seq<char> {
    bytes_chars(t)
}

/// The text of a vocabulary: the line of each token, joined by newlines.
pub open spec fn vocab_text(vocab: Seq<Seq<u8>>) -> Seq<char> {
    join_lines(vocab.map_values(|t: Seq<u8>| vocab_line(t)))
}

/// The tokens a vocabulary text stands for.
pub open spec fn vocab_of_text(content: Seq<char>) -> Seq<Seq<u8>> {
    content_lines(content).map_values(|l: Seq<char>| chars_bytes(l))
}

/// The position of the first space of a line, or `-1`.
pub open spec fn space_pos(l: Seq<char>) -> int
    decreases l.len(),
{
    if l.len() == 0 {
        -1
    } else if l[0] == ' ' {
        0
    } else {
        let r = space_pos(l.drop_first());
        if r < 0 {
            -1
        } else {
            r + 1
        }
    }
}

/// The two halves of a line around its first space (`str::split_once(' ')`).
pub open spec fn split_at_space(l: Seq<char>) -> (Seq<char>, Seq<char>) {
    let k = space_pos(l);
    (l.take(k), l.skip(k + 1))
}

/// The line of the merge format for one merge.
pub open spec fn merge_line(a: Seq<u8>, b: Seq<u8>) -> Seq<char> {
    bytes_chars(a) + seq![' '] + bytes_chars(b)
}

/// A line that the merge format can read: it has a space, and both halves show bytes.
pub open spec fn readable_merge_line(l: Seq<char>) -> bool {
    space_pos(l) >= 0 && all_byte_chars(split_at_space(l).0) && all_byte_chars(
        split_at_space(l).1,
    )
}

/* Lemmas about lines */

proof fn lemma_split_nonempty(cs: Seq<char>)
    ensures
        split_newlines(cs).len() >= 1,
    decreases cs.len(),
{
    if cs.len() > 0 {
        lemma_split_nonempty(cs.drop_last());
    }
}

/// Splitting a concatenation: the last piece of the first part is continued by
/// the first piece of the second part.
proof fn lemma_split_concat(a: Seq<char>, b: Seq<char>)
    ensures
        split_newlines(a + b) == split_newlines(a).drop_last() + seq![
            split_newlines(a).last() + split_newlines(b)[0],
        ] + split_newlines(b).drop_first(),
    decreases b.len(),
{
    lemma_split_nonempty(a);
    lemma_split_nonempty(b);
    if b.len() == 0 {
        assert(a + b == a);
        assert(split_newlines(b) == seq![Seq::<char>::empty()]);
        assert(split_newlines(a).last() + Seq::<char>::empty() == split_newlines(a).last());
        assert(split_newlines(a).drop_last() + seq![split_newlines(a).last()] == split_newlines(a));
        assert(seq![Seq::<char>::empty()].drop_first() == Seq::<Seq<char>>::empty());
    } else {
        let b0 = b.drop_last();
        assert((a + b).drop_last() == a + b0);
        assert((a + b).last() == b.last());
        lemma_split_concat(a, b0);
        lemma_split_nonempty(b0);
        let sa = split_newlines(a);
        let sb0 = split_newlines(b0);
        let sb = split_newlines(b);
        if b.last() == '\n' {
            assert(sb == sb0.push(Seq::<char>::empty()));
            if sb0.len() == 1 {
                assert(sb[0] == sb0[0]);
                assert(sb.drop_first() == seq![Seq::<char>::empty()]);
                assert(sb0.drop_first() == Seq::<Seq<char>>::empty());
            } else {
                assert(sb[0] == sb0[0]);
                assert(sb.drop_first() == sb0.drop_first().push(Seq::<char>::empty()));
            }
            assert(split_newlines(a + b) =~= sa.drop_last() + seq![sa.last() + sb[0]]
                + sb.drop_first());
        } else {
            if sb0.len() == 1 {
                assert(sb == seq![sb0[0].push(b.last())]);
                assert(sa.last() + sb0[0].push(b.last()) == (sa.last() + sb0[0]).push(b.last()));
                assert(sb.drop_first() == Seq::<Seq<char>>::empty());
                assert(sb0.drop_first() == Seq::<Seq<char>>::empty());
            } else {
                assert(sb[0] == sb0[0]);
                assert(sb.drop_first() == sb0.drop_first().update(
                    sb0.len() - 2,
                    sb0.last().push(b.last()),
                ));
            }
            assert(split_newlines(a + b) =~= sa.drop_last() + seq![sa.last() + sb[0]]
                + sb.drop_first());
        }
    }
}

/// A byte character is no white space, newline, carriage return or space.
pub proof fn lemma_byte_char_not_space(c: char)
    requires
        is_byte_char(c),
    ensures
        !is_white_space(c),
        c != '\n',
        c != '\r',
        c != ' ',
{
}

proof fn lemma_join_last(ls: Seq<Seq<char>>)
    requires
        ls.len() > 0,
        ls.last().len() > 0,
    ensures
        join_lines(ls).len() > 0,
        join_lines(ls).last() == ls.last().last(),
{
}

/// Splitting joined lines that hold no newline gives the lines back.
proof fn lemma_split_join(ls: Seq<Seq<char>>)
    requires
        ls.len() >= 1,
        forall|i: int, j: int|
            0 <= i < ls.len() && 0 <= j < ls[i].len() ==> #[trigger] ls[i][j] != '\n',
    ensures
        split_newlines(join_lines(ls)) == ls,
    decreases ls.len(),
{
    if ls.len() == 1 {
        lemma_split_no_newline(ls[0]);
        assert(split_newlines(join_lines(ls)) =~= ls);
    } else {
        let pre = ls.drop_last();
        lemma_split_join(pre);
        let j = join_lines(pre);
        lemma_split_concat(j, seq!['\n']);
        assert(seq!['\n'].drop_last() == Seq::<char>::empty());
        assert(split_newlines(Seq::<char>::empty()) == seq![Seq::<char>::empty()]);
        assert(split_newlines(seq!['\n']) == seq![Seq::<char>::empty(), Seq::<char>::empty()]);
        lemma_split_concat(j + seq!['\n'], ls.last());
        lemma_split_no_newline(ls.last());
        assert(split_newlines(j + seq!['\n']) =~= pre.push(Seq::<char>::empty()));
        assert(Seq::<char>::empty() + ls.last() == ls.last());
        assert(split_newlines(join_lines(ls)) =~= ls);
    }
}

proof fn lemma_split_no_newline(l: Seq<char>)
    requires
        forall|j: int| 0 <= j < l.len() ==> #[trigger] l[j] != '\n',
    ensures
        split_newlines(l) == seq![l],
    decreases l.len(),
{
    if l.len() > 0 {
        lemma_split_no_newline(l.drop_last());
        assert(l.drop_last().push(l.last()) == l);
        assert(split_newlines(l) =~= seq![l]);
    } else {
        assert(l =~= Seq::<char>::empty());
    }
}

/// Lines with no newline and no ending carriage return, the last one not empty,
/// are read back by `text_lines` from their join.
proof fn lemma_text_lines_join(ls: Seq<Seq<char>>)
    requires
        ls.len() >= 1,
        ls.last().len() > 0,
        forall|i: int, j: int|
            0 <= i < ls.len() && 0 <= j < ls[i].len() ==> #[trigger] ls[i][j] != '\n'
                && ls[i][j] != '\r',
    ensures
        text_lines(join_lines(ls)) == ls,
{
    lemma_split_join(ls);
    let done = ls.drop_last().map_values(|l: Seq<char>| strip_cr(l));
    assert forall|i: int| 0 <= i < done.len() implies #[trigger] done[i] == ls[i] by {
        if ls[i].len() > 0 {
            assert(ls[i][ls[i].len() - 1] != '\r');
        }
    }
    assert(done.push(ls.last()) =~= ls);
}

} // verus!

verus! {

/// Pieces of a prefix: all but the last are pieces of the whole text; the last
/// one starts the piece of the whole at the same place, and is that piece when a
/// newline follows the prefix.
proof fn lemma_prefix_pieces(t: Seq<char>, k: int)
    requires
        0 <= k <= t.len(),
    ensures
        split_newlines(t.take(k)).len() <= split_newlines(t).len(),
        forall|i: int|
            0 <= i < split_newlines(t.take(k)).len() - 1 ==> #[trigger] split_newlines(t)[i]
                == split_newlines(t.take(k))[i],
        k < t.len() && t[k] == '\n' ==> split_newlines(t.take(k)).len() < split_newlines(t).len()
            && split_newlines(t)[split_newlines(t.take(k)).len() - 1] == split_newlines(
            t.take(k),
        ).last(),
        k == t.len() ==> split_newlines(t.take(k)) == split_newlines(t),
{
    let a = t.take(k);
    let b = t.skip(k);
    assert(a + b == t);
    lemma_split_concat(a, b);
    lemma_split_nonempty(a);
    lemma_split_nonempty(b);
    if k < t.len() && t[k] == '\n' {
        let nl = seq!['\n'];
        let rest = b.drop_first();
        assert(nl + rest == b);
        lemma_split_concat(nl, rest);
        assert(nl.drop_last() == Seq::<char>::empty());
        assert(split_newlines(Seq::<char>::empty()) == seq![Seq::<char>::empty()]);
        assert(split_newlines(nl) == seq![Seq::<char>::empty(), Seq::<char>::empty()]);
        lemma_split_nonempty(rest);
        assert(split_newlines(b)[0] == Seq::<char>::empty());
        assert(split_newlines(b).len() >= 2);
        assert(split_newlines(a).last() + Seq::<char>::empty() == split_newlines(a).last());
    }
    if k == t.len() {
        assert(a == t);
    }
}

/// The string made of `cs[lo..hi]`.
fn chars_string(cs: &Vec<char>, lo: usize, hi: usize) -> (s: String)
    requires
        lo <= hi <= cs.len(),
    ensures
        s@ == cs@.subrange(lo as int, hi as int),
{
    let mut s = String::new();
    let mut i = lo;
    while i < hi
        invariant
            lo <= i <= hi <= cs.len(),
            s@ == cs@.subrange(lo as int, i as int),
        decreases hi - i,
    {
        string_push(&mut s, cs[i]);
        i += 1;
        assert(s@ =~= cs@.subrange(lo as int, i as int));
    }
    s
}

/// A finished line, without a carriage return that ended it when the line was
/// ended by a newline.
fn finish_line(line: Vec<char>, ended_by_newline: bool) -> (l: Vec<char>)
    ensures
        l@ == (if ended_by_newline { strip_cr(line@) } else { line@ }),
{
    let mut line = line;
    let len = line.len();
    if ended_by_newline && len > 0 && line[len - 1] == '\r' {
        line.pop();
    }
    line
}

/// The characters of the lines of `content` once its trailing white space is
/// removed (`content.trim_end().lines()`).
fn content_line_chars(content: &str) -> (lines: Vec<Vec<char>>)
    ensures
        lines@.map_values(|l: Vec<char>| l@) == content_lines(content@),
{
    let trimmed = str_trim_end(content);
    let ghost t = trimmed@;
    let ghost target = content_lines(content@);
    let mut lines: Vec<Vec<char>> = Vec::new();
    let mut line: Vec<char> = Vec::new();
    proof {
        lemma_split_nonempty(t);
    }
    for ch in it: trimmed.chars()
        invariant
            it.seq() == t,
            t == trim_end(content@),
            target == text_lines(t),
            lines@.len() == split_newlines(t.take(it.index() as int)).len() - 1,
            forall|i: int|
                0 <= i < lines@.len() ==> #[trigger] lines@[i]@ == strip_cr(
                    split_newlines(t.take(it.index() as int))[i],
                ),
            line@ == split_newlines(t.take(it.index() as int)).last(),
    {
        let ghost k = it.index() as int;
        let ghost p = split_newlines(t.take(k));
        proof {
            lemma_split_nonempty(t.take(k));
            assert(t.take(k + 1).drop_last() == t.take(k));
            assert(t.take(k + 1).last() == ch);
        }
        if ch == '\n' {
            let done = finish_line(line, true);
            lines.push(done);
            line = Vec::new();
            proof {
                assert forall|i: int| 0 <= i < lines@.len() implies #[trigger] lines@[i]@
                    == strip_cr(split_newlines(t.take(k + 1))[i]) by {
                    if i < lines@.len() - 1 {
                        assert(split_newlines(t.take(k + 1))[i] == p[i]);
                    }
                }
            }
        } else {
            line.push(ch);
            proof {
                assert forall|i: int| 0 <= i < lines@.len() implies #[trigger] lines@[i]@
                    == strip_cr(split_newlines(t.take(k + 1))[i]) by {
                    assert(split_newlines(t.take(k + 1))[i] == p[i]);
                }
            }
        }
    }
    proof {
        lemma_prefix_pieces(t, t.len() as int);
        lemma_split_nonempty(t);
    }
    if line.len() > 0 {
        let done = finish_line(line, false);
        lines.push(done);
    }
    assert(lines@.map_values(|l: Vec<char>| l@) =~= target);
    lines
}

/// Reads a vocabulary: one token per line (the content's trailing white space is
/// ignored), each line read back from its GPT-2 characters.
pub fn parse_vocab(content: &str) -> (vocab: Vec<TokenBytes>)
    requires
        forall|i: int|
            0 <= i < content_lines(content@).len() ==> all_byte_chars(
                #[trigger] content_lines(content@)[i],
            ),
    ensures
        tokens_view(vocab@) == vocab_of_text(content@),
{
    let lines = content_line_chars(content);
    let ghost target = content_lines(content@);
    let mut vocab: Vec<TokenBytes> = Vec::new();
    let mut i: usize = 0;
    while i < lines.len()
        invariant
            i <= lines.len(),
            lines@.map_values(|l: Vec<char>| l@) == target,
            target == content_lines(content@),
            forall|j: int| 0 <= j < target.len() ==> all_byte_chars(#[trigger] target[j]),
            vocab@.len() == i,
            forall|j: int| 0 <= j < i ==> #[trigger] vocab@[j]@ == chars_bytes(target[j]),
        decreases lines.len() - i,
    {
        assert(lines@[i as int]@ == target[i as int]);
        let s = chars_string(&lines[i], 0, lines[i].len());
        assert(s@ == lines@[i as int]@);
        vocab.push(string_to_bytes(s.as_str()));
        i += 1;
    }
    assert(tokens_view(vocab@) =~= vocab_of_text(content@));
    vocab
}

/// Writes a vocabulary: the GPT-2 characters of each token, one token per line.
pub fn serialize_vocab(vocab: &[TokenBytes]) -> (s: String)
    ensures
        s@ == vocab_text(tokens_view(vocab@)),
{
    let ghost ls = tokens_view(vocab@).map_values(|t: Seq<u8>| vocab_line(t));
    let mut s = String::new();
    let mut i: usize = 0;
    while i < vocab.len()
        invariant
            i <= vocab.len(),
            ls == tokens_view(vocab@).map_values(|t: Seq<u8>| vocab_line(t)),
            s@ == join_lines(ls.take(i as int)),
        decreases vocab.len() - i,
    {
        let line = bytes_to_string(vocab[i].as_slice());
        assert(ls.take(i + 1).drop_last() == ls.take(i as int));
        if i > 0 {
            string_push(&mut s, '\n');
        } else {
            assert(s@ == Seq::<char>::empty());
        }
        s.append(line.as_str());
        i += 1;
        assert(s@ =~= join_lines(ls.take(i as int)));
    }
    assert(ls.take(vocab.len() as int) == ls);
    s
}

/// Reading a written vocabulary gives it back, when its last token is not empty
/// (an empty last line is no line).
pub proof fn law_vocab_roundtrip(vocab: Seq<Seq<u8>>)
    requires
        vocab.len() == 0 || vocab.last().len() > 0,
    ensures
        vocab_of_text(vocab_text(vocab)) == vocab,
        forall|i: int|
            0 <= i < content_lines(vocab_text(vocab)).len() ==> all_byte_chars(
                #[trigger] content_lines(vocab_text(vocab))[i],
            ),
{
    let ls = vocab.map_values(|t: Seq<u8>| vocab_line(t));
    let text = join_lines(ls);
    assert forall|i: int, j: int| 0 <= i < ls.len() && 0 <= j < ls[i].len() implies
        #[trigger] ls[i][j] != '\n' && ls[i][j] != '\r' && is_byte_char(ls[i][j]) by {
        law_bytes_roundtrip(vocab[i]);
        lemma_byte_char_not_space(ls[i][j]);
    }
    if vocab.len() == 0 {
        assert(text == Seq::<char>::empty());
        assert(trim_end(text) == text);
        assert(split_newlines(text) == seq![Seq::<char>::empty()]);
        assert(content_lines(text) =~= Seq::<Seq<char>>::empty());
        assert(content_lines(text).map_values(|l: Seq<char>| chars_bytes(l)) =~= vocab);
    } else {
        lemma_join_last(ls);
        lemma_byte_char_not_space(text.last());
        assert(trim_end(text) == text);
        lemma_text_lines_join(ls);
        assert forall|i: int| 0 <= i < vocab.len() implies #[trigger] chars_bytes(ls[i])
            == vocab[i] by {
            law_bytes_roundtrip(vocab[i]);
        }
        assert(content_lines(text).map_values(|l: Seq<char>| chars_bytes(l)) =~= vocab);
    }
}

} // verus!

verus! {

/// The merges a merge-list text stands for.
pub open spec fn merges_of_text(content: Seq<char>) -> Seq<(Seq<u8>, Seq<u8>)> {
    content_lines(content).map_values(
        |l: Seq<char>| (chars_bytes(split_at_space(l).0), chars_bytes(split_at_space(l).1)),
    )
}

/// The byte sequences of a list of merges.
pub open spec fn merges_view(m: Seq<(TokenBytes, TokenBytes)>) -> Seq<(Seq<u8>, Seq<u8>)> {
    m.map_values(|p: (TokenBytes, TokenBytes)| (p.0@, p.1@))
}

/// The text of a merge list: the line of each merge, joined by newlines.
pub open spec fn merges_text(m: Seq<(Seq<u8>, Seq<u8>)>) -> Seq<char> {
    join_lines(m.map_values(|p: (Seq<u8>, Seq<u8>)| merge_line(p.0, p.1)))
}

proof fn lemma_space_pos_bounds(l: Seq<char>)
    ensures
        -1 <= space_pos(l) < l.len(),
        space_pos(l) >= 0 ==> l[space_pos(l)] == ' ',
        forall|j: int| 0 <= j < space_pos(l) ==> #[trigger] l[j] != ' ',
        space_pos(l) < 0 ==> forall|j: int| 0 <= j < l.len() ==> #[trigger] l[j] != ' ',
    decreases l.len(),
{
    if l.len() > 0 && l[0] != ' ' {
        lemma_space_pos_bounds(l.drop_first());
        assert forall|j: int| 0 < j < l.len() implies #[trigger] l[j] == l.drop_first()[j - 1] by {}
    }
}

proof fn lemma_space_pos_first(l: Seq<char>, k: int)
    requires
        0 <= k < l.len(),
        l[k] == ' ',
        forall|j: int| 0 <= j < k ==> #[trigger] l[j] != ' ',
    ensures
        space_pos(l) == k,
    decreases l.len(),
{
    if k > 0 {
        assert forall|j: int| 0 <= j < k - 1 implies #[trigger] l.drop_first()[j] != ' ' by {
            assert(l.drop_first()[j] == l[j + 1]);
        }
        lemma_space_pos_first(l.drop_first(), k - 1);
    }
}

/// Reads a merge list: one merge per line (the content's trailing white space is
/// ignored), the two tokens of a line separated by its first space.
pub fn parse_merges(content: &str) -> (merges: Vec<(TokenBytes, TokenBytes)>)
    requires
        forall|i: int|
            0 <= i < content_lines(content@).len() ==> readable_merge_line(
                #[trigger] content_lines(content@)[i],
            ),
    ensures
        merges_view(merges@) == merges_of_text(content@),
{
    let lines = content_line_chars(content);
    let ghost target = content_lines(content@);
    let mut merges: Vec<(TokenBytes, TokenBytes)> = Vec::new();
    let mut i: usize = 0;
    while i < lines.len()
        invariant
            i <= lines.len(),
            lines@.map_values(|l: Vec<char>| l@) == target,
            target == content_lines(content@),
            forall|j: int| 0 <= j < target.len() ==> readable_merge_line(#[trigger] target[j]),
            merges@.len() == i,
            forall|j: int|
                0 <= j < i ==> (#[trigger] merges@[j]).0@ == chars_bytes(
                    split_at_space(target[j]).0,
                ) && merges@[j].1@ == chars_bytes(split_at_space(target[j]).1),
        decreases lines.len() - i,
    {
        let line = &lines[i];
        let ghost l = target[i as int];
        assert(line@ == l);
        proof {
            lemma_space_pos_bounds(l);
        }
        let mut k: usize = 0;
        while k < line.len() && line[k] != ' '
            invariant
                line@ == l,
                space_pos(l) >= 0,
                k <= space_pos(l),
                forall|j: int| 0 <= j < space_pos(l) ==> #[trigger] l[j] != ' ',
                l[space_pos(l)] == ' ',
            decreases line.len() - k,
        {
            k += 1;
        }
        proof {
            lemma_space_pos_first(l, k as int);
        }
        let token_1 = chars_string(line, 0, k);
        let token_2 = chars_string(line, k + 1, line.len());
        assert(token_1@ == split_at_space(l).0);
        assert(token_2@ == split_at_space(l).1);
        let token_1 = string_to_bytes(token_1.as_str());
        let token_2 = string_to_bytes(token_2.as_str());
        merges.push((token_1, token_2));
        i += 1;
    }
    assert(merges_view(merges@) =~= merges_of_text(content@));
    merges
}

/// Writes a merge list: the GPT-2 characters of the two tokens of each merge,
/// separated by a space, one merge per line.
pub fn serialize_merges(merges: &[(TokenBytes, TokenBytes)]) -> (s: String)
    ensures
        s@ == merges_text(merges_view(merges@)),
{
    let ghost ls = merges_view(merges@).map_values(
        |p: (Seq<u8>, Seq<u8>)| merge_line(p.0, p.1),
    );
    let mut s = String::new();
    let mut i: usize = 0;
    while i < merges.len()
        invariant
            i <= merges.len(),
            ls == merges_view(merges@).map_values(|p: (Seq<u8>, Seq<u8>)| merge_line(p.0, p.1)),
            s@ == join_lines(ls.take(i as int)),
        decreases merges.len() - i,
    {
        let token_1 = bytes_to_string(merges[i].0.as_slice());
        let token_2 = bytes_to_string(merges[i].1.as_slice());
        assert(ls.take(i + 1).drop_last() == ls.take(i as int));
        if i > 0 {
            string_push(&mut s, '\n');
        } else {
            assert(s@ == Seq::<char>::empty());
        }
        s.append(token_1.as_str());
        string_push(&mut s, ' ');
        s.append(token_2.as_str());
        i += 1;
        assert(s@ =~= join_lines(ls.take(i as int)));
    }
    assert(ls.take(merges.len() as int) == ls);
    s
}

/// Reading a written merge list gives it back, when the second token of its last
/// merge is not empty (otherwise the last line ends in a space, which is trimmed).
pub proof fn law_merges_roundtrip(merges: Seq<(Seq<u8>, Seq<u8>)>)
    requires
        merges.len() == 0 || merges.last().1.len() > 0,
    ensures
        merges_of_text(merges_text(merges)) == merges,
        forall|i: int|
            0 <= i < content_lines(merges_text(merges)).len() ==> readable_merge_line(
                #[trigger] content_lines(merges_text(merges))[i],
            ),
{
    let ls = merges.map_values(|p: (Seq<u8>, Seq<u8>)| merge_line(p.0, p.1));
    let text = merges_text(merges);
    assert forall|i: int| 0 <= i < ls.len() implies {
        &&& space_pos(ls[i]) == bytes_chars(merges[i].0).len()
        &&& split_at_space(ls[i]).0 == bytes_chars(merges[i].0)
        &&& split_at_space(ls[i]).1 == bytes_chars(merges[i].1)
        &&& forall|j: int|
            0 <= j < ls[i].len() ==> #[trigger] ls[i][j] != '\n' && ls[i][j] != '\r'
    } by {
        let a = bytes_chars(merges[i].0);
        let b = bytes_chars(merges[i].1);
        law_bytes_roundtrip(merges[i].0);
        law_bytes_roundtrip(merges[i].1);
        assert forall|j: int| 0 <= j < a.len() implies #[trigger] ls[i][j] != ' ' by {
            lemma_byte_char_not_space(a[j]);
        }
        lemma_space_pos_first(ls[i], a.len() as int);
        assert(ls[i].take(a.len() as int) =~= a);
        assert(ls[i].skip(a.len() as int + 1) =~= b);
        assert forall|j: int| 0 <= j < ls[i].len() implies #[trigger] ls[i][j] != '\n'
            && ls[i][j] != '\r' by {
            if j < a.len() {
                lemma_byte_char_not_space(a[j]);
            } else if j > a.len() {
                assert(ls[i][j] == b[j - a.len() - 1]);
                lemma_byte_char_not_space(b[j - a.len() - 1]);
            }
        }
    }
    if merges.len() == 0 {
        assert(text == Seq::<char>::empty());
        assert(trim_end(text) == text);
        assert(split_newlines(text) == seq![Seq::<char>::empty()]);
        assert(content_lines(text) =~= Seq::<Seq<char>>::empty());
        assert(merges_of_text(text) =~= merges);
    } else {
        let last = merges.last();
        law_bytes_roundtrip(last.1);
        assert(ls.last().last() == bytes_chars(last.1).last());
        lemma_join_last(ls);
        lemma_byte_char_not_space(text.last());
        assert(trim_end(text) == text);
        lemma_text_lines_join(ls);
        assert forall|i: int| 0 <= i < merges.len() implies #[trigger] merges_of_text(text)[i]
            == merges[i] by {
            law_bytes_roundtrip(merges[i].0);
            law_bytes_roundtrip(merges[i].1);
        }
        assert forall|i: int| 0 <= i < ls.len() implies readable_merge_line(
            #[trigger] content_lines(text)[i],
        ) by {
            law_bytes_roundtrip(merges[i].0);
            law_bytes_roundtrip(merges[i].1);
        }
        assert(merges_of_text(text) =~= merges);
    }
}

/// Whether the characters `cs[lo..hi]` all show bytes.
fn chars_show_bytes(cs: &Vec<char>, lo: usize, hi: usize) -> (r: bool)
    requires
        lo <= hi <= cs@.len(),
    ensures
        r == all_byte_chars(cs@.subrange(lo as int, hi as int)),
{
    let mut i = lo;
    while i < hi
        invariant
            lo <= i <= hi <= cs@.len(),
            forall|j: int| lo <= j < i ==> is_byte_char(#[trigger] cs@[j]),
        decreases hi - i,
    {
        if !shows_byte(cs[i]) {
            proof {
                assert(cs@.subrange(lo as int, hi as int)[i - lo] == cs@[i as int]);
            }
            return false;
        }
        i += 1;
    }
    proof {
        assert forall|j: int| 0 <= j < hi - lo implies is_byte_char(#[trigger] cs@.subrange(lo as int, hi as int)[j]) by {
            assert(cs@.subrange(lo as int, hi as int)[j] == cs@[lo + j]);
        }
    }
    true
}

/// Whether every line of a vocabulary file's content shows bytes only, so that
/// `parse_vocab` can read it.
pub fn vocab_readable(content: &str) -> (r: bool)
    ensures
        r == forall|i: int| 0 <= i < content_lines(content@).len() ==> all_byte_chars(#[trigger] content_lines(content@)[i]),
{
    let lines = content_line_chars(content);
    let ghost target = content_lines(content@);
    for i in 0..lines.len()
        invariant
            lines@.map_values(|l: Vec<char>| l@) == target,
            target == content_lines(content@),
            forall|j: int| 0 <= j < i ==> all_byte_chars(#[trigger] target[j]),
    {
        let line = &lines[i];
        proof {
            assert(line@ == target[i as int]);
            assert(line@.subrange(0, line@.len() as int) =~= line@);
        }
        if !chars_show_bytes(line, 0, line.len()) {
            proof {
                assert(!all_byte_chars(target[i as int]));
            }
            return false;
        }
    }
    true
}

/// Whether every line of a merge file's content has a space and shows bytes
/// only on both sides of it, so that `parse_merges` can read it.
pub fn merges_readable(content: &str) -> (r: bool)
    ensures
        r == forall|i: int| 0 <= i < content_lines(content@).len() ==> readable_merge_line(#[trigger] content_lines(content@)[i]),
{
    let lines = content_line_chars(content);
    let ghost target = content_lines(content@);
    for i in 0..lines.len()
        invariant
            lines@.map_values(|l: Vec<char>| l@) == target,
            target == content_lines(content@),
            forall|j: int| 0 <= j < i ==> readable_merge_line(#[trigger] target[j]),
    {
        let line = &lines[i];
        let ghost l = target[i as int];
        proof {
            assert(line@ == l);
            lemma_space_pos_bounds(l);
        }
        let mut k: usize = 0;
        while k < line.len() && line[k] != ' '
            invariant
                line@ == l,
                k <= line@.len(),
                forall|j: int| 0 <= j < k ==> #[trigger] l[j] != ' ',
            decreases line.len() - k,
        {
            k += 1;
        }
        if k == line.len() {
            proof {
                assert(space_pos(l) < 0) by {
                    if space_pos(l) >= 0 {
                        lemma_space_pos_bounds(l);
                        assert(l[space_pos(l)] == ' ');
                    }
                }
                assert(!readable_merge_line(target[i as int]));
            }
            return false;
        }
        proof {
            lemma_space_pos_first(l, k as int);
            assert(l.take(k as int) =~= line@.subrange(0, k as int));
            assert(l.skip(k + 1) =~= line@.subrange(k + 1, line@.len() as int));
        }
        if !chars_show_bytes(line, 0, k) || !chars_show_bytes(line, k + 1, line.len()) {
            proof {
                assert(!readable_merge_line(target[i as int]));
            }
            return false;
        }
    }
    true
}

} // verus!
