//! The lines read from a watched file.

use vstd::prelude::*;

use crate::FilterError;

verus! {

/// The lines read so far from the file at a path.
pub struct Content {
    path: String,
    data: Vec<String>,
}

impl Content {
    /// The lines held, in the order they were added.
    pub closed spec fn lines(&self) -> Seq<Seq<char>> {
        self.data@.map_values(|s: String| s@)
    }

    /// The path of the file the lines come from.
    pub closed spec fn path(&self) -> Seq<char> {
        self.path@
    }

    /// No lines yet, for the file at `path`; this does not fail.
    pub fn new(path: String) -> (r: Result<Self, FilterError>)
        ensures
            r matches Ok(c) && c.path() == path@ && c.lines() == Seq::<Seq<char>>::empty(),
    {
        let c = Self { path, data: Vec::new() };
        assert(c.lines() =~= Seq::<Seq<char>>::empty());
        Ok(c)
    }

    /// The path of the file.
    pub fn get_path(&self) -> (p: &str)
        ensures
            p@ == self.path(),
    {
        self.path.as_str()
    }

    /// Appends a line at the end.
    pub fn add_line(&mut self, line: String)
        ensures
            final(self).lines() == old(self).lines().push(line@),
            final(self).path() == old(self).path(),
    {
        self.data.push(line);
        assert(self.lines() =~= old(self).lines().push(line@));
    }

    /// The line at position `index`; there must be such a line.
    pub fn get_line(&self, index: u32) -> (line: &str)
        requires
            index < self.lines().len(),
        ensures
            line@ == self.lines()[index as int],
    {
        self.data[index as usize].as_str()
    }

    /// The number of lines.
    pub fn len(&self) -> (n: usize)
        ensures
            n == self.lines().len(),
    {
        self.data.len()
    }
}

impl crate::content::Content for Content {
    closed spec fn lines(&self) -> Seq<Seq<char>> {
        self.data@.map_values(|s: String| s@)
    }

    fn add_line(&mut self, line: String) {
        self.data.push(line);
        assert(self.data@.map_values(|s: String| s@) =~= old(self).data@.map_values(
            |s: String| s@,
        ).push(line@));
    }

    fn get_line(&self, index: usize) -> (line: &str) {
        self.data[index].as_str()
    }
}

/// The lines that the store shows through the shared `Content` interface are
/// the lines it holds.
pub proof fn law_shared_view_agrees(c: &Content)
    ensures
        crate::content::Content::lines(c) == c.lines(),
{
}

} // verus!
