//! The tag file: plain text with one record per line, a tag and the name of
//! the document that explains it, separated by whitespace.

use crate::table::{TagEntry, TagTable};
use crate::text::{
    chars_of, is_space, lemma_line_len_is, lemma_words_first, lemma_words_skip_spaces, lines,
    skip_line, skip_spaces, skip_word, string_of, strip_cr, words,
};
use vstd::prelude::*;
use vstd::string::*;

verus! {

/// `file` ends in `.txt`.
pub open spec fn has_txt_suffix(file: Seq<char>) -> bool {
    &&& file.len() >= 4
    &&& file[file.len() - 4] == '.'
    &&& file[file.len() - 3] == 't'
    &&& file[file.len() - 2] == 'x'
    &&& file[file.len() - 1] == 't'
}

/// `file` without the suffix `.txt`, if it has one.
pub open spec fn strip_txt(file: Seq<char>) -> Seq<char> {
    if has_txt_suffix(file) {
        file.take(file.len() - 4)
    } else {
        file
    }
}

/// A line that is not empty and yet holds fewer than two words.
pub open spec fn is_malformed(line: Seq<char>) -> bool {
    line.len() > 0 && words(line).len() < 2
}

/// The table that the lines `ls` define. A line with two words or more
/// enters its first word as a tag, with its second word, stripped of `.txt`,
/// as the document; a later line replaces what an earlier one entered for
/// the same tag. Other lines enter nothing.
pub open spec fn table_of(ls: Seq<Seq<char>>) -> Map<Seq<char>, Seq<char>>
    decreases ls.len(),
{
    if ls.len() == 0 {
        Map::empty()
    } else {
        let earlier = table_of(ls.drop_last());
        let w = words(ls.last());
        if w.len() >= 2 {
            earlier.insert(w[0], strip_txt(w[1]))
        } else {
            earlier
        }
    }
}

/// A name that ends in `.txt` loses exactly that ending.
pub proof fn lemma_strip_txt_suffixed(stem: Seq<char>)
    ensures
        strip_txt(stem + seq!['.', 't', 'x', 't']) == stem,
{
    let file = stem + seq!['.', 't', 'x', 't'];
    assert(has_txt_suffix(file));
    assert(file.take(file.len() - 4) =~= stem);
}

/// Every tag of the table comes from the first word of a line that holds a
/// record.
pub proof fn lemma_table_of_keys(ls: Seq<Seq<char>>, k: Seq<char>)
    requires
        table_of(ls).contains_key(k),
    ensures
        exists|i: int| 0 <= i < ls.len() && words(#[trigger] ls[i]).len() >= 2 && words(ls[i])[0] == k,
    decreases ls.len(),
{
    if ls.len() > 0 {
        let init = ls.drop_last();
        let w = words(ls.last());
        if w.len() >= 2 && w[0] == k {
            assert(words(ls[ls.len() - 1])[0] == k);
        } else {
            lemma_table_of_keys(init, k);
            let i = choose|i: int|
                0 <= i < init.len() && words(#[trigger] init[i]).len() >= 2 && words(init[i])[0]
                    == k;
            assert(ls[i] == init[i]);
        }
    }
}

/// The last record for a tag decides its document: a line that holds a
/// record, and after which no line holds a record for the same tag, gives
/// the table its tag with its document, stripped of `.txt`.
pub proof fn lemma_table_of_last_record(ls: Seq<Seq<char>>, i: int)
    requires
        0 <= i < ls.len(),
        words(ls[i]).len() >= 2,
        forall|j: int|
            i < j < ls.len() && words(#[trigger] ls[j]).len() >= 2 ==> words(ls[j])[0] != words(
                ls[i],
            )[0],
    ensures
        table_of(ls).contains_key(words(ls[i])[0]),
        table_of(ls)[words(ls[i])[0]] == strip_txt(words(ls[i])[1]),
    decreases ls.len(),
{
    if i < ls.len() - 1 {
        let init = ls.drop_last();
        assert(init[i] == ls[i]);
        assert forall|j: int| i < j < init.len() && words(#[trigger] init[j]).len() >= 2 implies words(
            init[j],
        )[0] != words(init[i])[0] by {
            assert(init[j] == ls[j]);
        }
        lemma_table_of_last_record(init, i);
        assert(words(ls[ls.len() - 1]).len() >= 2 ==> words(ls[ls.len() - 1])[0] != words(ls[i])[0]);
    }
}

/// The error of a tag file with a line that is not empty and yet holds fewer
/// than two words: the number of the first such line, counted from 1.
#[derive(Clone, Copy, Debug, PartialEq, Eq, Structural)]
pub struct MalformedLine {
    pub line: usize,
}

/// Reads one record: the first word of `line` as the tag and the second,
/// stripped of `.txt`, as the document. A line with fewer than two words
/// holds no record.
pub fn parse_line(line: &[char]) -> (record: Option<TagEntry>)
    ensures
        match record {
            Some(entry) => {
                &&& words(line@).len() >= 2
                &&& entry.tag@ == words(line@)[0]
                &&& entry.file@ == strip_txt(words(line@)[1])
            },
            None => words(line@).len() < 2,
        },
{
    let n: usize = line.len();
    let tag_start: usize = skip_spaces(line, 0);
    if tag_start == n {
        proof {
            lemma_words_skip_spaces(line@, n as int);
        }
        return None;
    }
    let tag_end: usize = skip_word(line, tag_start);
    let file_start: usize = skip_spaces(line, tag_end);
    let ghost rest = line@.skip(tag_end as int);
    proof {
        lemma_words_first(line@, tag_start as int, tag_end as int);
        assert forall|k: int| 0 <= k < file_start - tag_end implies is_space(
            #[trigger] rest[k],
        ) by {
            assert(rest[k] == line@[k + tag_end]);
        }
    }
    if file_start == n {
        proof {
            lemma_words_skip_spaces(rest, rest.len() as int);
        }
        return None;
    }
    let file_end: usize = skip_word(line, file_start);
    proof {
        assert forall|k: int| file_start - tag_end <= k < file_end - tag_end implies
            !is_space(#[trigger] rest[k]) by {
            assert(rest[k] == line@[k + tag_end]);
        }
        if file_end < n {
            assert(rest[file_end - tag_end] == line@[file_end as int]);
        }
        lemma_words_first(rest, file_start - tag_end, file_end - tag_end);
        assert(rest.subrange(file_start - tag_end, file_end - tag_end) =~= line@.subrange(
            file_start as int,
            file_end as int,
        ));
    }
    let suffixed: bool = file_end - file_start >= 4 && line[file_end - 4] == '.' && line[file_end
        - 3] == 't' && line[file_end - 2] == 'x' && line[file_end - 1] == 't';
    let stem_end: usize = if suffixed {
        file_end - 4
    } else {
        file_end
    };
    let tag = string_of(&line[tag_start..tag_end]);
    let file = string_of(&line[file_start..stem_end]);
    proof {
        let w = line@.subrange(file_start as int, file_end as int);
        assert(w.take(stem_end - file_start) =~= line@.subrange(
            file_start as int,
            stem_end as int,
        ));
        assert(w.take(w.len() as int) =~= w);
    }
    Some(TagEntry { tag, file })
}

/// Reads the tag file `text` into a table. Empty lines are passed over. The
/// first line that is not empty and holds fewer than two words is an error,
/// reported with its line number.
pub fn parse_tags(text: &str) -> (r: Result<TagTable, MalformedLine>)
    ensures
        match r {
            Ok(table) => {
                &&& forall|i: int|
                    0 <= i < lines(text@).len() ==> !is_malformed(#[trigger] lines(text@)[i])
                &&& table@ == table_of(lines(text@))
            },
            Err(e) => {
                &&& 1 <= e.line <= lines(text@).len()
                &&& is_malformed(lines(text@)[e.line - 1])
                &&& forall|i: int| 0 <= i < e.line - 1 ==> !is_malformed(#[trigger] lines(text@)[i])
            },
        },
{
    let chars: Vec<char> = chars_of(text);
    let s: &[char] = chars.as_slice();
    let mut table = TagTable::new();
    let mut pos: usize = 0;
    let mut count: usize = 0;
    let ghost mut done: Seq<Seq<char>> = Seq::empty();
    assert(text@.skip(0) =~= text@);
    while pos < s.len()
        invariant
            s@ == text@,
            count <= pos <= s@.len(),
            lines(text@) == done + lines(text@.skip(pos as int)),
            done.len() == count,
            forall|i: int| 0 <= i < done.len() ==> !is_malformed(#[trigger] done[i]),
            table@ == table_of(done),
        decreases s@.len() - pos,
    {
        let ghost rest = text@.skip(pos as int);
        let end: usize = skip_line(s, pos);
        proof {
            assert forall|k: int| 0 <= k < end - pos implies #[trigger] rest[k] != '\n' by {
                assert(rest[k] == s@[k + pos]);
            }
            if end < s.len() {
                assert(rest[end - pos] == s@[end as int]);
            }
            lemma_line_len_is(rest, end - pos);
        }
        let line_end: usize = if end < s.len() && pos < end && s[end - 1] == '\r' {
            end - 1
        } else {
            end
        };
        let next: usize = if end < s.len() {
            end + 1
        } else {
            end
        };
        let line: &[char] = &s[pos..line_end];
        proof {
            let whole = rest.take(end - pos);
            assert(whole =~= s@.subrange(pos as int, end as int));
            if end < s.len() {
                if pos < end {
                    assert(whole.last() == s@[end - 1]);
                }
                assert(strip_cr(whole) =~= line@);
                assert(rest.skip(end - pos + 1) =~= text@.skip(next as int));
                assert(lines(rest) == seq![line@] + lines(text@.skip(next as int)));
            } else {
                assert(rest =~= line@);
                assert(text@.skip(next as int).len() == 0);
                assert(lines(rest) =~= seq![line@] + lines(text@.skip(next as int)));
            }
            assert(done + (seq![line@] + lines(text@.skip(next as int))) =~= done.push(line@)
                + lines(text@.skip(next as int)));
            assert(done.push(line@).drop_last() =~= done);
        }
        count += 1;
        if line.len() > 0 {
            match parse_line(line) {
                Some(entry) => {
                    table.insert(entry.tag, entry.file);
                },
                None => {
                    return Err(MalformedLine { line: count });
                },
            }
        }
        proof {
            done = done.push(line@);
        }
        pos = next;
    }
    assert(done + lines(text@.skip(pos as int)) =~= done);
    Ok(table)
}

} // verus!
