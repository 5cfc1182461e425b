//! Documents: filtered views of the lines of their parent.
//!
//! A document keeps, in order, the positions in the content of the lines of
//! its parent that its matcher accepts. The parent announces how far its own
//! list of positions has grown; the document then examines the new entries,
//! each exactly once, and announces its own growth in turn.

pub mod content;
pub mod node;
pub mod subdocument;
pub mod watcher;

use vstd::prelude::*;

use crate::content::Content;
use crate::matcher::{Matcher, PassthroughMatcher};

verus! {

/// The content positions among `parent[lo..hi]` whose lines `m` accepts, in order.
pub open spec fn matched_range<M: Matcher>(
    m: M,
    lines: Seq<Seq<char>>,
    parent: Seq<usize>,
    lo: int,
    hi: int,
) -> Seq<usize>
    decreases hi - lo,
{
    if hi <= lo {
        seq![]
    } else {
        let prev = matched_range(m, lines, parent, lo, hi - 1);
        let k = parent[hi - 1];
        if m.accepts(lines[k as int]) {
            prev.push(k)
        } else {
            prev
        }
    }
}

/// The positions `from, from + 1, ..., to - 1` of a list, as announced to children.
pub open spec fn positions(from: int, to: int) -> Seq<usize> {
    Seq::new((to - from) as nat, |j: int| (from + j) as usize)
}

/// Examines the entries `next_index_to_read..=notification_index` of the
/// parent's list: each is a position in `content`, and those whose line the
/// matcher accepts are appended to `indices`. Returns the positions in
/// `indices` of the entries appended, which are to be announced to the
/// document's children.
pub fn match_indices_range<C: Content, M: Matcher>(
    next_index_to_read: usize,
    notification_index: usize,
    parent_indices: &Vec<usize>,
    indices: &mut Vec<usize>,
    content: &C,
    matcher: &M,
) -> (sent: Vec<usize>)
    requires
        next_index_to_read <= notification_index ==> notification_index < parent_indices.len(),
        forall|k: int|
            next_index_to_read <= k <= notification_index ==> #[trigger] parent_indices@[k]
                < content.lines().len(),
    ensures
        final(indices)@ == old(indices)@ + matched_range(
            *matcher,
            content.lines(),
            parent_indices@,
            next_index_to_read as int,
            notification_index + 1,
        ),
        sent@ == positions(old(indices)@.len() as int, final(indices)@.len() as int),
{
    let mut sent: Vec<usize> = Vec::new();
    if next_index_to_read > notification_index {
        assert(old(indices)@ + matched_range(
            *matcher,
            content.lines(),
            parent_indices@,
            next_index_to_read as int,
            notification_index + 1,
        ) =~= old(indices)@);
        assert(sent@ =~= positions(indices@.len() as int, indices@.len() as int));
        return sent;
    }
    let ghost start = indices@;
    let mut i = next_index_to_read;
    while i <= notification_index
        invariant
            next_index_to_read <= i <= notification_index + 1,
            notification_index < parent_indices.len(),
            forall|k: int|
                next_index_to_read <= k <= notification_index ==> #[trigger] parent_indices@[k]
                    < content.lines().len(),
            indices@ == start + matched_range(
                *matcher,
                content.lines(),
                parent_indices@,
                next_index_to_read as int,
                i as int,
            ),
            sent@ == positions(start.len() as int, indices@.len() as int),
        decreases notification_index + 1 - i,
    {
        let content_index = parent_indices[i];
        assert(parent_indices@[i as int] < content.lines().len());
        let line = content.get_line(content_index);
        if matcher.matches(line) {
            let new_index = indices.len();
            indices.push(content_index);
            sent.push(new_index);
            assert(sent@ =~= positions(start.len() as int, indices@.len() as int));
        }
        assert(indices@ =~= start + matched_range(
            *matcher,
            content.lines(),
            parent_indices@,
            next_index_to_read as int,
            i + 1,
        ));
        i = i + 1;
    }
    sent
}

/// The state of a document as it follows its parent: the first entry of
/// the parent's list it has not examined yet.
pub struct Observer {
    pub next_index_to_read: usize,
}

/// The position reached and the list kept after the parent announces that
/// its list has grown to `notification_index + 1` entries.
pub open spec fn after_notification<M: Matcher>(
    m: M,
    lines: Seq<Seq<char>>,
    parent: Seq<usize>,
    next_index_to_read: usize,
    indices: Seq<usize>,
    notification_index: usize,
) -> (usize, Seq<usize>) {
    (
        (notification_index + 1) as usize,
        indices + matched_range(m, lines, parent, next_index_to_read as int, notification_index + 1),
    )
}

impl Observer {
    /// A document that has examined nothing yet.
    pub fn new() -> (o: Self)
        ensures
            o.next_index_to_read == 0,
    {
        Observer { next_index_to_read: 0 }
    }

    /// Handles the announcement that the parent's list now reaches index
    /// `notification_index`: examines the entries not examined yet, appends
    /// the accepted ones to `indices`, moves past them, and returns the
    /// positions to announce to the document's children.
    pub fn on_notification<C: Content, M: Matcher>(
        &mut self,
        notification_index: usize,
        parent_indices: &Vec<usize>,
        indices: &mut Vec<usize>,
        content: &C,
        matcher: &M,
    ) -> (sent: Vec<usize>)
        requires
            notification_index < usize::MAX,
            old(self).next_index_to_read <= notification_index ==> notification_index
                < parent_indices.len(),
            forall|k: int|
                old(self).next_index_to_read <= k <= notification_index
                    ==> #[trigger] parent_indices@[k] < content.lines().len(),
        ensures
            (final(self).next_index_to_read, final(indices)@) == after_notification(
                *matcher,
                content.lines(),
                parent_indices@,
                old(self).next_index_to_read,
                old(indices)@,
                notification_index,
            ),
            sent@ == positions(old(indices)@.len() as int, final(indices)@.len() as int),
    {
        let sent = match_indices_range(
            self.next_index_to_read,
            notification_index,
            parent_indices,
            indices,
            content,
            matcher,
        );
        self.next_index_to_read = notification_index + 1;
        sent
    }
}

/// Splitting a range of the parent's list splits what is kept from it.
pub proof fn lemma_matched_range_split<M: Matcher>(
    m: M,
    lines: Seq<Seq<char>>,
    parent: Seq<usize>,
    lo: int,
    mid: int,
    hi: int,
)
    requires
        lo <= mid <= hi,
    ensures
        matched_range(m, lines, parent, lo, hi) == matched_range(m, lines, parent, lo, mid)
            + matched_range(m, lines, parent, mid, hi),
    decreases hi - mid,
{
    if hi == mid {
        assert(matched_range(m, lines, parent, lo, mid) + matched_range(m, lines, parent, mid, hi)
            =~= matched_range(m, lines, parent, lo, mid));
    } else {
        lemma_matched_range_split(m, lines, parent, lo, mid, hi - 1);
        let k = parent[hi - 1];
        if m.accepts(lines[k as int]) {
            assert(matched_range(m, lines, parent, lo, hi) =~= matched_range(m, lines, parent, lo, mid)
                + matched_range(m, lines, parent, mid, hi));
        } else {
            assert(matched_range(m, lines, parent, lo, hi) =~= matched_range(m, lines, parent, lo, mid)
                + matched_range(m, lines, parent, mid, hi));
        }
    }
}

/// Two announcements in a row, the second reaching at least as far as the
/// first, leave a document where the second alone would have: every entry of
/// the parent is examined exactly once, however announcements are grouped.
pub proof fn law_notifications_coalesce<M: Matcher>(
    m: M,
    lines: Seq<Seq<char>>,
    parent: Seq<usize>,
    next_index_to_read: usize,
    indices: Seq<usize>,
    first: usize,
    second: usize,
)
    requires
        next_index_to_read <= first + 1,
        first <= second < usize::MAX,
    ensures
        ({
            let (next, kept) = after_notification(
                m,
                lines,
                parent,
                next_index_to_read,
                indices,
                first,
            );
            after_notification(m, lines, parent, next, kept, second)
        }) == after_notification(m, lines, parent, next_index_to_read, indices, second),
{
    lemma_matched_range_split(
        m,
        lines,
        parent,
        next_index_to_read as int,
        first + 1,
        second + 1,
    );
    assert(indices + matched_range(m, lines, parent, next_index_to_read as int, first + 1)
        + matched_range(m, lines, parent, first + 1, second + 1) =~= indices + matched_range(
        m,
        lines,
        parent,
        next_index_to_read as int,
        second + 1,
    ));
}

/// The position reached and the list kept after the announcements `ns`,
/// handled in turn by `Observer::on_notification`.
pub open spec fn after_notifications<M: Matcher>(
    m: M,
    lines: Seq<Seq<char>>,
    parent: Seq<usize>,
    next_index_to_read: usize,
    indices: Seq<usize>,
    ns: Seq<usize>,
) -> (usize, Seq<usize>)
    decreases ns.len(),
{
    if ns.len() == 0 {
        (next_index_to_read, indices)
    } else {
        let (next, kept) = after_notifications(
            m,
            lines,
            parent,
            next_index_to_read,
            indices,
            ns.drop_last(),
        );
        after_notification(m, lines, parent, next, kept, ns.last())
    }
}

/// Any number of announcements that never go back leave a document where the
/// last alone would have: every entry of the parent up to the last announced
/// one is examined exactly once, in order, and the document keeps exactly
/// those whose line its matcher accepts. With no announcement, nothing changes.
pub proof fn law_announcements_coalesce<M: Matcher>(
    m: M,
    lines: Seq<Seq<char>>,
    parent: Seq<usize>,
    next_index_to_read: usize,
    indices: Seq<usize>,
    ns: Seq<usize>,
)
    requires
        forall|i: int, j: int| 0 <= i <= j < ns.len() ==> ns[i] <= ns[j],
        ns.len() > 0 ==> next_index_to_read <= ns[0] + 1 && ns.last() < usize::MAX,
    ensures
        ns.len() == 0 ==> after_notifications(m, lines, parent, next_index_to_read, indices, ns)
            == (next_index_to_read, indices),
        ns.len() > 0 ==> after_notifications(m, lines, parent, next_index_to_read, indices, ns)
            == after_notification(m, lines, parent, next_index_to_read, indices, ns.last()),
    decreases ns.len(),
{
    if ns.len() > 1 {
        let rest = ns.drop_last();
        assert(rest.last() == ns[ns.len() - 2]);
        assert(rest[0] == ns[0]);
        law_announcements_coalesce(m, lines, parent, next_index_to_read, indices, rest);
        law_notifications_coalesce(
            m,
            lines,
            parent,
            next_index_to_read,
            indices,
            rest.last(),
            ns.last(),
        );
        let mid = after_notification(m, lines, parent, next_index_to_read, indices, rest.last());
        assert(after_notifications(m, lines, parent, next_index_to_read, indices, rest) == mid);
        assert(after_notifications(m, lines, parent, next_index_to_read, indices, ns)
            == after_notification(m, lines, parent, mid.0, mid.1, ns.last()));
    } else if ns.len() == 1 {
        assert(ns.drop_last() =~= Seq::<usize>::empty());
        assert(after_notifications(m, lines, parent, next_index_to_read, indices, ns.drop_last())
            == (next_index_to_read, indices));
    }
}

/// The positions announced by two announcements in a row join up: a document
/// announces the positions of its list one by one, 0, 1, 2, and so on.
pub proof fn law_announced_positions_join(a: int, b: int, c: int)
    requires
        0 <= a <= b <= c <= usize::MAX + 1,
    ensures
        positions(a, b) + positions(b, c) == positions(a, c),
{
    assert(positions(a, b) + positions(b, c) =~= positions(a, c));
}

/// One entry of the parent's list is kept once if its line is accepted, and
/// not at all otherwise; a range of entries never yields more kept entries
/// than it has entries.
pub proof fn law_each_entry_kept_at_most_once<M: Matcher>(
    m: M,
    lines: Seq<Seq<char>>,
    parent: Seq<usize>,
    lo: int,
    hi: int,
)
    requires
        lo <= hi,
    ensures
        matched_range(m, lines, parent, lo, lo + 1) == if m.accepts(lines[parent[lo] as int]) {
            seq![parent[lo]]
        } else {
            Seq::<usize>::empty()
        },
        matched_range(m, lines, parent, lo, hi).len() <= hi - lo,
    decreases hi - lo,
{
    assert(matched_range(m, lines, parent, lo, lo) =~= Seq::<usize>::empty());
    assert(Seq::<usize>::empty().push(parent[lo]) =~= seq![parent[lo]]);
    if hi > lo {
        law_each_entry_kept_at_most_once(m, lines, parent, lo, hi - 1);
    }
}

/// A document keeps exactly the entries of its parent's list whose line its
/// matcher accepts: a position is kept from `parent[lo..hi]` if and only if
/// it is one of those entries and its line is accepted.
pub proof fn law_keeps_exactly_accepted_entries<M: Matcher>(
    m: M,
    lines: Seq<Seq<char>>,
    parent: Seq<usize>,
    lo: int,
    hi: int,
    x: usize,
)
    requires
        0 <= lo,
        hi <= parent.len(),
    ensures
        matched_range(m, lines, parent, lo, hi).contains(x) <==> (exists|j: int|
            lo <= j < hi && #[trigger] parent[j] == x) && m.accepts(lines[x as int]),
    decreases hi - lo,
{
    if hi <= lo {
    } else {
        law_keeps_exactly_accepted_entries(m, lines, parent, lo, hi - 1, x);
        let prev = matched_range(m, lines, parent, lo, hi - 1);
        let k = parent[hi - 1];
        if m.accepts(lines[k as int]) {
            assert(matched_range(m, lines, parent, lo, hi) == prev.push(k));
            if x == k {
                assert(prev.push(k)[prev.len() as int] == x);
            }
            if prev.push(k).contains(x) {
                let i = choose|i: int| 0 <= i < prev.push(k).len() && prev.push(k)[i] == x;
                if i < prev.len() {
                    assert(prev[i] == x);
                }
            }
            if prev.contains(x) {
                let i = choose|i: int| 0 <= i < prev.len() && prev[i] == x;
                assert(prev.push(k)[i] == x);
            }
        }
        if (exists|j: int| lo <= j < hi && #[trigger] parent[j] == x) && m.accepts(lines[x as int]) {
            let j = choose|j: int| lo <= j < hi && #[trigger] parent[j] == x;
            if j < hi - 1 {
                assert(exists|j: int| lo <= j < hi - 1 && #[trigger] parent[j] == x);
            }
        }
    }
}

/// A document whose matcher accepts every line keeps its parent's list as it is.
pub proof fn law_passthrough_keeps_everything(
    lines: Seq<Seq<char>>,
    parent: Seq<usize>,
    lo: int,
    hi: int,
)
    requires
        0 <= lo <= hi <= parent.len(),
    ensures
        matched_range(PassthroughMatcher(), lines, parent, lo, hi) == parent.subrange(lo, hi),
    decreases hi - lo,
{
    if hi > lo {
        law_passthrough_keeps_everything(lines, parent, lo, hi - 1);
        assert(parent.subrange(lo, hi) =~= parent.subrange(lo, hi - 1).push(parent[hi - 1]));
    } else {
        assert(parent.subrange(lo, hi) =~= Seq::<usize>::empty());
    }
}

} // verus!
