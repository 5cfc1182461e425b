//! Taking in the lines read from the watched file.

use vstd::prelude::*;

use crate::document::content::Content;

verus! {

/// The state of the reader of the watched file: how many lines it has taken in.
pub struct WatchState {
    pub read_lines: usize,
}

/// The root list of a content with `n` lines: every position, in order.
pub open spec fn all_positions(n: int) -> Seq<usize> {
    Seq::new(n as nat, |i: int| i as usize)
}

/// Taking in one line: the count of lines taken in, the stored lines, the
/// root list, and the position announced, if any.
pub open spec fn after_line(
    read: int,
    stored: Seq<Seq<char>>,
    indices: Seq<usize>,
    line: Seq<char>,
) -> (int, Seq<Seq<char>>, Seq<usize>, Option<usize>) {
    if line.len() == 0 {
        (read, stored, indices, None)
    } else {
        (read + 1, stored.push(line), indices.push(read as usize), Some(read as usize))
    }
}

/// The non-empty lines of `ls`, in order.
pub open spec fn non_empty_lines(ls: Seq<Seq<char>>) -> Seq<Seq<char>>
    decreases ls.len(),
{
    if ls.len() == 0 {
        seq![]
    } else {
        let prev = non_empty_lines(ls.drop_last());
        if ls.last().len() > 0 {
            prev.push(ls.last())
        } else {
            prev
        }
    }
}

/// Taking in the lines `ls` in turn: the count, the stored lines, the root
/// list, and the positions announced, in order, appended to `sent`.
pub open spec fn after_lines(
    read: int,
    stored: Seq<Seq<char>>,
    indices: Seq<usize>,
    sent: Seq<usize>,
    ls: Seq<Seq<char>>,
) -> (int, Seq<Seq<char>>, Seq<usize>, Seq<usize>)
    decreases ls.len(),
{
    if ls.len() == 0 {
        (read, stored, indices, sent)
    } else {
        let (r, st, ix, se) = after_lines(read, stored, indices, sent, ls.drop_last());
        let (r2, st2, ix2, announced) = after_line(r, st, ix, ls.last());
        (
            r2,
            st2,
            ix2,
            match announced {
                Some(p) => se.push(p),
                None => se,
            },
        )
    }
}

/// Reading lines `ls` from a file, into a content whose root list holds all
/// its positions, stores exactly the non-empty lines of `ls`, in file order,
/// after the earlier ones, which stay as they were; the root list stays the
/// list of all positions; and the new positions are announced one by one, in
/// order.
pub proof fn law_reading_lines(read: int, stored: Seq<Seq<char>>, ls: Seq<Seq<char>>)
    requires
        stored.len() == read,
        read + ls.len() <= usize::MAX + 1,
    ensures
        ({
            let k = non_empty_lines(ls).len();
            after_lines(read, stored, all_positions(read), seq![], ls) == (
                read + k,
                stored + non_empty_lines(ls),
                all_positions(read + k),
                Seq::new(k, |j: int| (read + j) as usize),
            )
        }),
    decreases ls.len(),
{
    if ls.len() > 0 {
        law_reading_lines(read, stored, ls.drop_last());
        let k0 = non_empty_lines(ls.drop_last()).len();
        assert(k0 <= ls.len() - 1) by {
            lemma_non_empty_lines_len(ls.drop_last());
        }
        if ls.last().len() > 0 {
            assert(stored + non_empty_lines(ls) =~= (stored + non_empty_lines(ls.drop_last())).push(
                ls.last(),
            ));
            assert(all_positions(read + k0).push((read + k0) as usize) =~= all_positions(
                read + k0 + 1,
            ));
            assert(Seq::new(k0, |j: int| (read + j) as usize).push((read + k0) as usize) =~= Seq::new(
                (k0 + 1) as nat,
                |j: int| (read + j) as usize,
            ));
        }
    } else {
        assert(stored + non_empty_lines(ls) =~= stored);
        assert(Seq::new(0, |j: int| (read + j) as usize) =~= Seq::<usize>::empty());
    }
}

/// There are no more non-empty lines than lines.
pub proof fn lemma_non_empty_lines_len(ls: Seq<Seq<char>>)
    ensures
        non_empty_lines(ls).len() <= ls.len(),
    decreases ls.len(),
{
    if ls.len() > 0 {
        lemma_non_empty_lines_len(ls.drop_last());
    }
}

impl WatchState {
    /// Nothing taken in yet.
    pub fn new() -> (w: Self)
        ensures
            w.read_lines == 0,
    {
        WatchState { read_lines: 0 }
    }

    /// Takes in a line read from the file: an empty line is skipped; any other
    /// is added to `content`, its position is appended to the root list
    /// `indices`, and that position is returned, to be announced.
    pub fn ingest_line(&mut self, content: &mut Content, indices: &mut Vec<usize>, line: String) -> (sent:
        Option<usize>)
        requires
            line@.len() > 0 ==> old(self).read_lines < usize::MAX,
        ensures
            line@.len() == 0 ==> {
                &&& sent is None
                &&& final(self).read_lines == old(self).read_lines
                &&& final(content).lines() == old(content).lines()
                &&& final(indices)@ == old(indices)@
            },
            line@.len() > 0 ==> {
                &&& sent == Some(old(self).read_lines)
                &&& final(self).read_lines == old(self).read_lines + 1
                &&& final(content).lines() == old(content).lines().push(line@)
                &&& final(indices)@ == old(indices)@.push(old(self).read_lines)
            },
            final(content).path() == old(content).path(),
            (final(self).read_lines as int, final(content).lines(), final(indices)@, sent)
                == after_line(
                old(self).read_lines as int,
                old(content).lines(),
                old(indices)@,
                line@,
            ),
            // The root list stays the list of all positions of the content.
            old(content).lines().len() == old(self).read_lines && old(indices)@ == all_positions(
                old(self).read_lines as int,
            ) ==> final(content).lines().len() == final(self).read_lines && final(indices)@
                == all_positions(final(self).read_lines as int),
    {
        if line.as_str().is_empty() {
            return None;
        }
        let position = self.read_lines;
        content.add_line(line);
        indices.push(position);
        self.read_lines = position + 1;
        assert(old(indices)@ == all_positions(position as int) ==> indices@ =~= all_positions(
            (position + 1) as int,
        ));
        Some(position)
    }
}

} // verus!
