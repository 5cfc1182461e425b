//! Line storage shared by the documents of a tree.

use vstd::prelude::*;

verus! {

/// A store of text lines, addressed by their position.
pub trait Content {
    /// The lines held, in the order they were added.
    spec fn lines(&self) -> Seq<Seq<char>>;

    /// Appends a line at the end.
    fn add_line(&mut self, line: String)
        ensures
            final(self).lines() == old(self).lines().push(line@),
    ;

    /// The line at position `index`; there must be such a line.
    fn get_line(&self, index: usize) -> (line: &str)
        requires
            index < self.lines().len(),
        ensures
            line@ == self.lines()[index as int],
    ;
}

/// Lines kept in memory, in a vector.
pub struct TextContent {
    data: Vec<String>,
}

impl TextContent {
    /// A store with no lines.
    pub fn new() -> (c: Self)
        ensures
            c.lines() == Seq::<Seq<char>>::empty(),
    {
        let c = Self { data: Vec::new() };
        assert(c.data@.map_values(|s: String| s@) =~= Seq::<Seq<char>>::empty());
        c
    }
}

impl Content for TextContent {
    closed spec fn lines(&self) -> Seq<Seq<char>> {
        self.data@.map_values(|s: String| s@)
    }

    fn add_line(&mut self, line: String) {
        self.data.push(line);
        assert(self.data@.map_values(|s: String| s@) =~= old(self).data@.map_values(
            |s: String| s@,
        ).push(line@));
    }

    fn get_line(&self, index: usize) -> (line: &str) {
        self.data[index].as_str()
    }
}

/// A line added to a store is read back, as the last line, by `get_line`.
pub proof fn law_added_line_reads_back<C: Content>(before: C, after: C, line: Seq<char>)
    requires
        after.lines() == before.lines().push(line),
    ensures
        after.lines().len() == before.lines().len() + 1,
        after.lines()[before.lines().len() as int] == line,
        forall|i: int| 0 <= i < before.lines().len() ==> after.lines()[i] == before.lines()[i],
{
}

} // verus!
