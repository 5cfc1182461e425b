//! A fixed selection of the lines of a content.

use std::sync::Arc;

use vstd::prelude::*;

use crate::document::content::Content;
use crate::document::{law_keeps_exactly_accepted_entries, matched_range};
use crate::document::watcher::all_positions;
use crate::matcher::search::{matching_lines, regex_compiles};
use crate::matcher::PatternMatcher;
use crate::tree::{lemma_occurrences_concat, occurrences};
use crate::FilterError;

verus! {

/// The positions `0..hi` of `lines` in order, each repeated as many times as
/// the search with `pattern` reports a matching line in it.
pub open spec fn lines_matching(pattern: Seq<char>, lines: Seq<Seq<char>>, hi: int) -> Seq<usize>
    decreases hi,
{
    if hi <= 0 {
        seq![]
    } else {
        lines_matching(pattern, lines, hi - 1) + Seq::new(
            matching_lines(pattern, lines[hi - 1]),
            |j: int| (hi - 1) as usize,
        )
    }
}

/// Whether each line is non-empty, holds no line break, and does not start
/// with a byte order mark.
pub open spec fn plain_lines(lines: Seq<Seq<char>>) -> bool {
    forall|i: int|
        0 <= i < lines.len() ==> #[trigger] lines[i].len() > 0 && !lines[i].contains('\n')
            && lines[i][0] != '\u{feff}'
}

/// Some of the lines of a content, by position.
pub struct Subdocument {
    content: Arc<Content>,
    indices: Vec<usize>,
}

impl Subdocument {
    /// The content the positions refer to.
    pub closed spec fn content(&self) -> Content {
        *self.content
    }

    /// The positions selected, in order.
    pub closed spec fn selected(&self) -> Seq<usize> {
        self.indices@
    }

    /// The positions selected, in order.
    pub fn indices(&self) -> (r: &Vec<usize>)
        ensures
            r@ == self.selected(),
    {
        &self.indices
    }

    /// Every line of `content`.
    pub fn full_document(content: Arc<Content>) -> (s: Self)
        ensures
            s.content() == *content,
            s.selected() == Seq::new(content.lines().len(), |i: int| i as usize),
    {
        let n = content.len();
        let mut indices: Vec<usize> = Vec::new();
        let mut i: usize = 0;
        while i < n
            invariant
                0 <= i <= n,
                indices@ == Seq::new(i as nat, |k: int| k as usize),
            decreases n - i,
        {
            indices.push(i);
            assert(indices@ =~= Seq::new((i + 1) as nat, |k: int| k as usize));
            i = i + 1;
        }
        Self { indices, content }
    }

    /// The positions of the lines of `content` that the search with `pattern`
    /// reports, a position once per matching line reported in it; fails when
    /// `pattern` is not a valid regular expression.
    pub fn new(content: Arc<Content>, pattern: &str) -> (r: Result<Self, FilterError>)
        ensures
            r is Ok <==> regex_compiles(pattern@),
            r matches Ok(s) ==> s.content() == *content && s.selected() == lines_matching(
                pattern@,
                content.lines(),
                content.lines().len() as int,
            ),
            r matches Err(e) ==> e == FilterError::InvalidPattern,
            // The empty pattern selects every line of a content of plain lines.
            pattern@.len() == 0 && plain_lines(content.lines()) ==> (r matches Ok(s) && s.selected() == Seq::new(
                content.lines().len(),
                |i: int| i as usize,
            )),
    {
        let matcher = match PatternMatcher::new(pattern) {
            Ok(m) => m,
            Err(e) => {
                return Err(e);
            },
        };
        let n = content.len();
        proof {
            crate::document::content::law_shared_view_agrees(&*content);
        }
        let mut indices: Vec<usize> = Vec::new();
        let mut index: usize = 0;
        while index < n
            invariant
                0 <= index <= n,
                n == content.lines().len(),
                crate::content::Content::lines(&*content) == content.lines(),
                matcher@ == pattern@,
                indices@ == lines_matching(pattern@, content.lines(), index as int),
                pattern@.len() == 0 && plain_lines(content.lines()) ==> indices@ == Seq::new(
                    index as nat,
                    |i: int| i as usize,
                ),
            decreases n - index,
        {
            let line = crate::content::Content::get_line(&*content, index);
            let count = matcher.matching_line_count(line);
            let ghost before = indices@;
            let mut k: usize = 0;
            while k < count
                invariant
                    0 <= k <= count,
                    indices@ == before + Seq::new(k as nat, |j: int| index),
                decreases count - k,
            {
                indices.push(index);
                assert(indices@ =~= before + Seq::new((k + 1) as nat, |j: int| index));
                k = k + 1;
            }
            assert(indices@ =~= lines_matching(pattern@, content.lines(), index + 1));
            proof {
                if pattern@.len() == 0 && plain_lines(content.lines()) {
                    assert(content.lines()[index as int].len() > 0);
                    assert(count == 1);
                    assert(indices@ =~= Seq::new((index + 1) as nat, |i: int| i as usize));
                }
            }
            index = index + 1;
        }
        Ok(Self { content, indices })
    }
}

/// A position is selected by a pattern if and only if it is a position of
/// the content and the search reports a matching line in it.
pub proof fn law_selects_exactly_matching_lines(
    pattern: Seq<char>,
    lines: Seq<Seq<char>>,
    hi: int,
    x: usize,
)
    requires
        0 <= hi <= usize::MAX + 1,
    ensures
        lines_matching(pattern, lines, hi).contains(x) <==> x < hi && matching_lines(
            pattern,
            lines[x as int],
        ) > 0,
    decreases hi,
{
    if hi > 0 {
        law_selects_exactly_matching_lines(pattern, lines, hi - 1, x);
        let prev = lines_matching(pattern, lines, hi - 1);
        let piece = Seq::new(matching_lines(pattern, lines[hi - 1]), |j: int| (hi - 1) as usize);
        let all = prev + piece;
        if all.contains(x) {
            let i = choose|i: int| 0 <= i < all.len() && all[i] == x;
            if i < prev.len() {
                assert(prev[i] == x);
            } else {
                assert(piece[i - prev.len()] == x);
            }
        }
        if prev.contains(x) {
            let i = choose|i: int| 0 <= i < prev.len() && prev[i] == x;
            assert(all[i] == x);
        }
        if x == hi - 1 && matching_lines(pattern, lines[x as int]) > 0 {
            assert(all[prev.len() as int] == x);
        }
    }
}

/// A sequence of one value repeated holds that value as many times as it is
/// long, and nothing else.
pub proof fn lemma_occurrences_repeated(n: nat, v: usize, x: usize)
    ensures
        occurrences(Seq::new(n, |j: int| v), x) == if v == x {
            n
        } else {
            0nat
        },
    decreases n,
{
    if n > 0 {
        assert(Seq::new(n, |j: int| v).drop_last() =~= Seq::new((n - 1) as nat, |j: int| v));
        lemma_occurrences_repeated((n - 1) as nat, v, x);
    } else {
        assert(Seq::new(n, |j: int| v) =~= Seq::<usize>::empty());
    }
}

/// Each position `x` of the first `hi` lines is selected exactly as many
/// times as the search reports matching lines in line `x`, no other position
/// is selected, and the selected positions come in increasing order.
pub proof fn law_selection_counts(pattern: Seq<char>, lines: Seq<Seq<char>>, hi: int)
    requires
        0 <= hi <= usize::MAX + 1,
    ensures
        forall|x: usize|
            #[trigger] occurrences(lines_matching(pattern, lines, hi), x) == if x < hi {
                matching_lines(pattern, lines[x as int])
            } else {
                0nat
            },
        forall|i: int, j: int|
            0 <= i <= j < lines_matching(pattern, lines, hi).len() ==> lines_matching(
                pattern,
                lines,
                hi,
            )[i] <= lines_matching(pattern, lines, hi)[j],
        forall|i: int|
            0 <= i < lines_matching(pattern, lines, hi).len() ==> lines_matching(pattern, lines, hi)[i]
                < hi,
    decreases hi,
{
    let s = lines_matching(pattern, lines, hi);
    if hi > 0 {
        law_selection_counts(pattern, lines, hi - 1);
        let prev = lines_matching(pattern, lines, hi - 1);
        let v = (hi - 1) as usize;
        let piece = Seq::new(matching_lines(pattern, lines[hi - 1]), |j: int| v);
        assert(s == prev + piece);
        assert forall|x: usize| #[trigger] occurrences(s, x) == if x < hi {
            matching_lines(pattern, lines[x as int])
        } else {
            0nat
        } by {
            lemma_occurrences_concat(prev, piece, x);
            lemma_occurrences_repeated(matching_lines(pattern, lines[hi - 1]), v, x);
        }
        assert forall|i: int, j: int| 0 <= i <= j < s.len() implies s[i] <= s[j] by {
            if j >= prev.len() {
                assert(s[j] == v);
                if i < prev.len() {
                    assert(s[i] == prev[i]);
                }
            } else {
                assert(s[i] == prev[i] && s[j] == prev[j]);
            }
        }
        assert forall|i: int| 0 <= i < s.len() implies s[i] < hi by {
            if i < prev.len() {
                assert(s[i] == prev[i]);
            }
        }
    } else {
        assert(s =~= Seq::<usize>::empty());
        assert forall|x: usize| #[trigger] occurrences(s, x) == 0nat by {}
    }
}

/// A document following the root list of a content (every position, in
/// order) with a pattern keeps, once it has examined the first `hi` entries,
/// the positions that a `Subdocument` built with that pattern selects among
/// the first `hi` lines (the subdocument repeats a position whose line holds
/// several matching lines).
pub proof fn law_root_child_agrees_with_subdocument(
    m: PatternMatcher,
    lines: Seq<Seq<char>>,
    n: int,
    hi: int,
    x: usize,
)
    requires
        0 <= hi <= n <= usize::MAX + 1,
    ensures
        matched_range(m, lines, all_positions(n), 0, hi).contains(x) <==> lines_matching(
            m@,
            lines,
            hi,
        ).contains(x),
{
    law_keeps_exactly_accepted_entries(m, lines, all_positions(n), 0, hi, x);
    law_selects_exactly_matching_lines(m@, lines, hi, x);
    if x < hi {
        assert(all_positions(n)[x as int] == x);
    }
}

} // verus!
