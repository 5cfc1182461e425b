//! Nodes that forward the positions of the content lines they accept.

use vstd::prelude::*;

use crate::document::content::Content;
use crate::matcher::{Matcher, PassthroughMatcher};

verus! {

/// A node that can be told the id under which a tree keeps it.
pub trait Identifiable {
    /// Records `id` as the node's id.
    fn set_id(&mut self, id: usize);
}

/// The positions `lo..hi` of `lines` whose line `m` accepts, in order.
pub open spec fn accepted_positions<M: Matcher>(
    m: M,
    lines: Seq<Seq<char>>,
    lo: int,
    hi: int,
) -> Seq<u32>
    decreases hi - lo,
{
    if hi <= lo {
        seq![]
    } else {
        let prev = accepted_positions(m, lines, lo, hi - 1);
        if m.accepts(lines[hi - 1]) {
            prev.push((hi - 1) as u32)
        } else {
            prev
        }
    }
}

/// The state of a node as it follows the announcements of its parent: the
/// first content line it has not examined yet.
pub struct NodeObserver {
    pub next_index_to_read: u32,
}

impl NodeObserver {
    /// A node that has examined nothing yet.
    pub fn new() -> (o: Self)
        ensures
            o.next_index_to_read == 0,
    {
        NodeObserver { next_index_to_read: 0 }
    }

    /// Handles the announcement that content line `notification_index` is
    /// available: examines the lines not examined yet, up to it, and returns
    /// the positions of those the matcher accepts, to be forwarded.
    pub fn on_notification<M: Matcher>(
        &mut self,
        notification_index: u32,
        content: &Content,
        matcher: &M,
    ) -> (forwarded: Vec<u32>)
        requires
            notification_index < u32::MAX,
            old(self).next_index_to_read <= notification_index ==> notification_index
                < content.lines().len(),
        ensures
            final(self).next_index_to_read == notification_index + 1,
            forwarded@ == accepted_positions(
                *matcher,
                content.lines(),
                old(self).next_index_to_read as int,
                notification_index + 1,
            ),
    {
        let mut forwarded: Vec<u32> = Vec::new();
        let mut i = self.next_index_to_read;
        if i <= notification_index {
            while i <= notification_index
                invariant
                    old(self).next_index_to_read <= i <= notification_index + 1,
                    notification_index < content.lines().len(),
                    notification_index < u32::MAX,
                    forwarded@ == accepted_positions(
                        *matcher,
                        content.lines(),
                        old(self).next_index_to_read as int,
                        i as int,
                    ),
                decreases notification_index + 1 - i,
            {
                let line = content.get_line(i);
                if matcher.matches(line) {
                    forwarded.push(i);
                }
                i = i + 1;
            }
        } else {
            assert(forwarded@ =~= accepted_positions(
                *matcher,
                content.lines(),
                old(self).next_index_to_read as int,
                notification_index + 1,
            ));
        }
        self.next_index_to_read = notification_index + 1;
        forwarded
    }
}

/// Splitting a range of lines splits the positions accepted in it.
pub proof fn lemma_accepted_positions_split<M: Matcher>(
    m: M,
    lines: Seq<Seq<char>>,
    lo: int,
    mid: int,
    hi: int,
)
    requires
        lo <= mid <= hi,
    ensures
        accepted_positions(m, lines, lo, hi) == accepted_positions(m, lines, lo, mid)
            + accepted_positions(m, lines, mid, hi),
    decreases hi - mid,
{
    if hi == mid {
        assert(accepted_positions(m, lines, lo, mid) + accepted_positions(m, lines, mid, hi)
            =~= accepted_positions(m, lines, lo, mid));
    } else {
        lemma_accepted_positions_split(m, lines, lo, mid, hi - 1);
        assert(accepted_positions(m, lines, lo, hi) =~= accepted_positions(m, lines, lo, mid)
            + accepted_positions(m, lines, mid, hi));
    }
}

/// Two announcements in a row, the second reaching at least as far as the
/// first, forward the same positions, in the same order, as the second alone.
pub proof fn law_node_notifications_coalesce<M: Matcher>(
    m: M,
    lines: Seq<Seq<char>>,
    next_index_to_read: u32,
    first: u32,
    second: u32,
)
    requires
        next_index_to_read <= first + 1,
        first <= second,
    ensures
        accepted_positions(m, lines, next_index_to_read as int, first + 1) + accepted_positions(
            m,
            lines,
            first + 1,
            second + 1,
        ) == accepted_positions(m, lines, next_index_to_read as int, second + 1),
{
    lemma_accepted_positions_split(m, lines, next_index_to_read as int, first + 1, second + 1);
}

/// The position reached and the positions forwarded after the announcements
/// `ns`, handled in turn by `NodeObserver::on_notification`.
pub open spec fn forwarded_after<M: Matcher>(
    m: M,
    lines: Seq<Seq<char>>,
    next_index_to_read: u32,
    ns: Seq<u32>,
) -> (u32, Seq<u32>)
    decreases ns.len(),
{
    if ns.len() == 0 {
        (next_index_to_read, seq![])
    } else {
        let (next, forwarded) = forwarded_after(m, lines, next_index_to_read, ns.drop_last());
        (
            (ns.last() + 1) as u32,
            forwarded + accepted_positions(m, lines, next as int, ns.last() + 1),
        )
    }
}

/// Any number of announcements that never go back forward exactly the
/// positions, up to the last announced one, whose line the matcher accepts,
/// each once and in increasing order; with no announcement, nothing.
pub proof fn law_node_announcements_coalesce<M: Matcher>(
    m: M,
    lines: Seq<Seq<char>>,
    next_index_to_read: u32,
    ns: Seq<u32>,
)
    requires
        forall|i: int, j: int| 0 <= i <= j < ns.len() ==> ns[i] <= ns[j],
        ns.len() > 0 ==> next_index_to_read <= ns[0] + 1 && ns.last() < u32::MAX,
    ensures
        ns.len() == 0 ==> forwarded_after(m, lines, next_index_to_read, ns) == (
            next_index_to_read,
            Seq::<u32>::empty(),
        ),
        ns.len() > 0 ==> forwarded_after(m, lines, next_index_to_read, ns) == (
            (ns.last() + 1) as u32,
            accepted_positions(m, lines, next_index_to_read as int, ns.last() + 1),
        ),
    decreases ns.len(),
{
    if ns.len() > 1 {
        let rest = ns.drop_last();
        assert(rest.last() == ns[ns.len() - 2]);
        assert(rest[0] == ns[0]);
        law_node_announcements_coalesce(m, lines, next_index_to_read, rest);
        law_node_notifications_coalesce(m, lines, next_index_to_read, rest.last(), ns.last());
        let mid = forwarded_after(m, lines, next_index_to_read, rest);
        assert(mid.0 == rest.last() + 1);
        assert(forwarded_after(m, lines, next_index_to_read, ns).1 == mid.1 + accepted_positions(
            m,
            lines,
            mid.0 as int,
            ns.last() + 1,
        ));
    } else if ns.len() == 1 {
        assert(ns.drop_last() =~= Seq::<u32>::empty());
        assert(forwarded_after(m, lines, next_index_to_read, ns.drop_last()) == (
            next_index_to_read,
            Seq::<u32>::empty(),
        ));
        assert(Seq::<u32>::empty() + accepted_positions(
            m,
            lines,
            next_index_to_read as int,
            ns.last() + 1,
        ) =~= accepted_positions(m, lines, next_index_to_read as int, ns.last() + 1));
    }
}

/// The positions forwarded from the lines `lo..hi` are exactly those of the
/// lines that the matcher accepts, each line taken whole, and they come in
/// strictly increasing order, so each position is forwarded once.
pub proof fn law_forwards_exactly_accepted_lines<M: Matcher>(
    m: M,
    lines: Seq<Seq<char>>,
    lo: int,
    hi: int,
)
    requires
        0 <= lo,
        hi <= u32::MAX + 1,
    ensures
        forall|p: u32|
            accepted_positions(m, lines, lo, hi).contains(p) <==> lo <= p < hi && m.accepts(
                lines[p as int],
            ),
        forall|i: int, j: int|
            0 <= i < j < accepted_positions(m, lines, lo, hi).len() ==> accepted_positions(
                m,
                lines,
                lo,
                hi,
            )[i] < accepted_positions(m, lines, lo, hi)[j],
    decreases hi - lo,
{
    let s = accepted_positions(m, lines, lo, hi);
    if hi > lo {
        law_forwards_exactly_accepted_lines(m, lines, lo, hi - 1);
        let prev = accepted_positions(m, lines, lo, hi - 1);
        let last = (hi - 1) as u32;
        assert forall|i: int| 0 <= i < prev.len() implies prev[i] < last by {
            assert(prev.contains(prev[i]));
        }
        if m.accepts(lines[hi - 1]) {
            assert(s == prev.push(last));
            assert forall|p: u32| s.contains(p) <==> lo <= p < hi && m.accepts(lines[p as int]) by {
                if s.contains(p) {
                    let i = choose|i: int| 0 <= i < s.len() && s[i] == p;
                    if i < prev.len() {
                        assert(prev[i] == p);
                        assert(prev.contains(p));
                    } else {
                        assert(p == last);
                        assert(p as int == hi - 1);
                    }
                }
                if lo <= p < hi && m.accepts(lines[p as int]) {
                    if p as int == hi - 1 {
                        assert(s[prev.len() as int] == p);
                        assert(s.contains(p));
                    } else {
                        assert(prev.contains(p));
                        let i = choose|i: int| 0 <= i < prev.len() && prev[i] == p;
                        assert(s[i] == p);
                        assert(s.contains(p));
                    }
                }
            }
        } else {
            assert(s == prev);
        }
    } else {
        assert(s =~= Seq::<u32>::empty());
    }
}

/// A node whose matcher accepts every line forwards every position in turn.
pub proof fn law_passthrough_forwards_every_position(lines: Seq<Seq<char>>, lo: int, hi: int)
    requires
        0 <= lo <= hi <= u32::MAX + 1,
    ensures
        accepted_positions(PassthroughMatcher(), lines, lo, hi) == Seq::new(
            (hi - lo) as nat,
            |j: int| (lo + j) as u32,
        ),
    decreases hi - lo,
{
    if hi > lo {
        law_passthrough_forwards_every_position(lines, lo, hi - 1);
    }
    assert(accepted_positions(PassthroughMatcher(), lines, lo, hi) =~= Seq::new(
        (hi - lo) as nat,
        |j: int| (lo + j) as u32,
    ));
}

} // verus!
