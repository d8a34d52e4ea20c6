use vstd::prelude::*;

verus! {

/// What is left today of one deck's limits. `parent` points at the nearest
/// ancestor in the tree, which always stands earlier in the list.
#[derive(Clone, Copy, Debug, PartialEq, Eq, Structural)]
pub struct DeckLimit {
    pub deck_id: i64,
    pub parent: Option<usize>,
    pub review: u32,
    pub new: u32,
    pub rwkv_minimum: u32,
}

/// The kind of card a limit counts.
#[derive(Clone, Copy, Debug, PartialEq, Eq, Structural)]
pub enum LimitKind {
    New,
    Review,
}

/// The limits of a deck tree; the first node is the root of the study.
#[derive(Clone, Debug)]
pub struct LimitTree {
    pub nodes: Vec<DeckLimit>,
}

/// Every parent stands before its child, the root has none, and every
/// other deck has one.
pub open spec fn tree_wf(nodes: Seq<DeckLimit>) -> bool {
    &&& nodes.len() > 0
    &&& nodes[0].parent is None
    &&& forall|i: int| 0 <= i < nodes.len() ==> match #[trigger] nodes[i].parent {
        Some(p) => p < i,
        None => i == 0,
    }
}

/// `j` is `start` or one of its ancestors.
pub open spec fn in_chain(nodes: Seq<DeckLimit>, start: int, j: int) -> bool
    decreases start,
{
    if start < 0 || start >= nodes.len() {
        false
    } else if j == start {
        true
    } else {
        match nodes[start].parent {
            Some(p) => if p < start {
                in_chain(nodes, p as int, j)
            } else {
                false
            },
            None => false,
        }
    }
}

/// What a node has left of a kind: new cards also count against reviews.
pub open spec fn left(node: DeckLimit, kind: LimitKind) -> int {
    match kind {
        LimitKind::Review => node.review as int,
        LimitKind::New => if node.new < node.review {
            node.new as int
        } else {
            node.review as int
        },
    }
}

/// The first node of the deck with this id.
pub open spec fn first_node_of(nodes: Seq<DeckLimit>, deck_id: i64, i: int) -> bool {
    0 <= i < nodes.len() && nodes[i].deck_id == deck_id && forall|j: int| 0 <= j < i ==> #[trigger] nodes[j].deck_id != deck_id
}

/// The deck has no node, or some deck of the chain from its first node up
/// has nothing left of `kind`.
pub open spec fn deck_reached(nodes: Seq<DeckLimit>, deck_id: i64, kind: LimitKind) -> bool {
    forall|i: int| #[trigger] first_node_of(nodes, deck_id, i) ==> chain_reached(nodes, i, kind)
}

/// Some deck of the chain from `start` up has nothing left.
pub open spec fn chain_reached(nodes: Seq<DeckLimit>, start: int, kind: LimitKind) -> bool {
    exists|j: int| in_chain(nodes, start, j) && left(#[trigger] nodes[j], kind) == 0
}

/// Some deck of the chain from `start` up still wants RWKV reviews.
pub open spec fn chain_wants_minimum(nodes: Seq<DeckLimit>, start: int) -> bool {
    exists|j: int| in_chain(nodes, start, j) && #[trigger] nodes[j].rwkv_minimum > 0
}

pub open spec fn sat_dec(x: u32) -> u32 {
    if x > 0 {
        (x - 1) as u32
    } else {
        0
    }
}

/// The limits after one card of `kind` in the deck at `start` was taken:
/// every deck of its chain has one fewer left (a new card counts against
/// the reviews too; a review also counts towards the RWKV minimum).
pub open spec fn reserved(nodes: Seq<DeckLimit>, start: int, kind: LimitKind) -> Seq<DeckLimit> {
    Seq::new(
        nodes.len(),
        |j: int|
            if in_chain(nodes, start, j) {
                match kind {
                    LimitKind::Review => DeckLimit {
                        review: sat_dec(nodes[j].review),
                        rwkv_minimum: sat_dec(nodes[j].rwkv_minimum),
                        ..nodes[j]
                    },
                    LimitKind::New => DeckLimit {
                        review: sat_dec(nodes[j].review),
                        new: sat_dec(nodes[j].new),
                        ..nodes[j]
                    },
                }
            } else {
                nodes[j]
            },
    )
}

/// The limits after one card of `kind` in the deck `deck_id` was taken:
/// those of its first node and every deck above it count it; a deck
/// outside the tree changes nothing.
pub open spec fn reserved_for_deck(nodes: Seq<DeckLimit>, deck_id: i64, kind: LimitKind) -> Seq<DeckLimit> {
    if exists|i: int| #[trigger] first_node_of(nodes, deck_id, i) {
        reserved(nodes, choose|i: int| #[trigger] first_node_of(nodes, deck_id, i), kind)
    } else {
        nodes
    }
}

/// The limits after one review (or interday learning card) was taken in
/// each of `decks`, in order.
pub open spec fn reviews_reserved(nodes: Seq<DeckLimit>, decks: Seq<i64>) -> Seq<DeckLimit>
    decreases decks.len(),
{
    if decks.len() == 0 {
        nodes
    } else {
        reserved_for_deck(reviews_reserved(nodes, decks.drop_last()), decks.last(), LimitKind::Review)
    }
}

/// Taking reviews in two runs counts as taking them all in one.
pub proof fn lemma_reviews_reserved_append(nodes: Seq<DeckLimit>, a: Seq<i64>, b: Seq<i64>)
    ensures
        reviews_reserved(reviews_reserved(nodes, a), b) == reviews_reserved(nodes, a + b),
    decreases b.len(),
{
    if b.len() == 0 {
        assert(a + b =~= a);
    } else {
        lemma_reviews_reserved_append(nodes, a, b.drop_last());
        assert((a + b).drop_last() =~= a + b.drop_last());
        assert((a + b).last() == b.last());
    }
}

/// One more review taken in `deck`.
pub proof fn lemma_reviews_reserved_push(nodes: Seq<DeckLimit>, a: Seq<i64>, deck: i64)
    ensures
        reviews_reserved(nodes, a.push(deck)) == reserved_for_deck(reviews_reserved(nodes, a), deck, LimitKind::Review),
{
    assert(a.push(deck).drop_last() =~= a);
}

/// The limits after `count` reviews of the deck at `start` were counted
/// against the RWKV minimums of its chain.
pub open spec fn minimum_reserved(nodes: Seq<DeckLimit>, start: int, count: u32) -> Seq<DeckLimit> {
    Seq::new(
        nodes.len(),
        |j: int|
            if in_chain(nodes, start, j) {
                DeckLimit {
                    rwkv_minimum: if nodes[j].rwkv_minimum > count {
                        (nodes[j].rwkv_minimum - count) as u32
                    } else {
                        0
                    },
                    ..nodes[j]
                }
            } else {
                nodes[j]
            },
    )
}

/// The limits after `count` reviews of the deck `deck_id` were counted
/// against the RWKV minimums of its chain; a deck outside the tree changes
/// nothing.
pub open spec fn minimum_reserved_for_deck(nodes: Seq<DeckLimit>, deck_id: i64, count: u32) -> Seq<DeckLimit> {
    if exists|i: int| #[trigger] first_node_of(nodes, deck_id, i) {
        minimum_reserved(nodes, choose|i: int| #[trigger] first_node_of(nodes, deck_id, i), count)
    } else {
        nodes
    }
}

/// The chain of every deck goes up to the root.
pub proof fn lemma_chain_to_root(nodes: Seq<DeckLimit>, i: int)
    requires
        tree_wf(nodes),
        0 <= i < nodes.len(),
    ensures
        in_chain(nodes, i, 0),
    decreases i,
{
    if i > 0 {
        let p = nodes[i].parent->0;
        assert(match nodes[i].parent {
            Some(p) => p < i,
            None => i == 0,
        });
        lemma_chain_to_root(nodes, p as int);
        lemma_chain_step(nodes, i, 0);
    }
}

/// Taking a card anywhere takes it from the root: what the root has left
/// never grows, and a new card taken while the root has some left takes one
/// of them.
pub proof fn lemma_reserved_root(nodes: Seq<DeckLimit>, start: int, kind: LimitKind)
    requires
        tree_wf(nodes),
        0 <= start < nodes.len(),
    ensures
        left(reserved(nodes, start, kind)[0], LimitKind::New) <= left(nodes[0], LimitKind::New),
        left(reserved(nodes, start, kind)[0], LimitKind::Review) <= left(nodes[0], LimitKind::Review),
        kind == LimitKind::New && left(nodes[0], LimitKind::New) > 0 ==> left(reserved(nodes, start, kind)[0], LimitKind::New)
            == left(nodes[0], LimitKind::New) - 1 && left(reserved(nodes, start, kind)[0], LimitKind::Review) == left(
            nodes[0],
            LimitKind::Review,
        ) - 1,
        kind == LimitKind::Review && left(nodes[0], LimitKind::Review) > 0 ==> left(
            reserved(nodes, start, kind)[0],
            LimitKind::Review,
        ) == left(nodes[0], LimitKind::Review) - 1,
        tree_wf(reserved(nodes, start, kind)),
{
    lemma_chain_to_root(nodes, start);
    let r = reserved(nodes, start, kind);
    assert forall|i: int| 0 <= i < r.len() implies match #[trigger] r[i].parent {
        Some(p) => p < i,
        None => i == 0,
    } by {
        assert(r[i].parent == nodes[i].parent);
        assert(match nodes[i].parent {
            Some(p) => p < i,
            None => i == 0,
        });
    }
}

/// A deck whose chain has something left leaves the root something.
pub proof fn lemma_not_reached_root(nodes: Seq<DeckLimit>, start: int, kind: LimitKind)
    requires
        tree_wf(nodes),
        0 <= start < nodes.len(),
        !chain_reached(nodes, start, kind),
    ensures
        left(nodes[0], kind) > 0,
{
    lemma_chain_to_root(nodes, start);
    assert(!(in_chain(nodes, start, 0) && left(nodes[0], kind) == 0));
}

/// The same tree, with no deck having more left of either kind.
pub open spec fn nodes_not_up(a: Seq<DeckLimit>, b: Seq<DeckLimit>) -> bool {
    &&& a.len() == b.len()
    &&& forall|j: int|
        0 <= j < a.len() ==> (#[trigger] b[j]).deck_id == a[j].deck_id && b[j].parent == a[j].parent && left(
            b[j],
            LimitKind::New,
        ) <= left(a[j], LimitKind::New) && left(b[j], LimitKind::Review) <= left(a[j], LimitKind::Review)
            && b[j].rwkv_minimum <= a[j].rwkv_minimum
}

pub proof fn lemma_nodes_not_up_refl(a: Seq<DeckLimit>)
    ensures
        nodes_not_up(a, a),
{
}

pub proof fn lemma_nodes_not_up_trans(a: Seq<DeckLimit>, b: Seq<DeckLimit>, c: Seq<DeckLimit>)
    requires
        nodes_not_up(a, b),
        nodes_not_up(b, c),
    ensures
        nodes_not_up(a, c),
{
    assert forall|j: int| 0 <= j < a.len() implies (#[trigger] c[j]).deck_id == a[j].deck_id && c[j].parent == a[j].parent
        && left(c[j], LimitKind::New) <= left(a[j], LimitKind::New) && left(c[j], LimitKind::Review) <= left(
        a[j],
        LimitKind::Review,
    ) && c[j].rwkv_minimum <= a[j].rwkv_minimum by {
        assert(b[j].deck_id == a[j].deck_id);
        assert(c[j].deck_id == b[j].deck_id);
    }
}

pub proof fn lemma_reserved_not_up(nodes: Seq<DeckLimit>, start: int, kind: LimitKind)
    ensures
        nodes_not_up(nodes, reserved(nodes, start, kind)),
{
}

proof fn lemma_in_chain_same(a: Seq<DeckLimit>, b: Seq<DeckLimit>, start: int, j: int)
    requires
        nodes_not_up(a, b),
    ensures
        in_chain(a, start, j) == in_chain(b, start, j),
    decreases start,
{
    if 0 <= start < a.len() && j != start {
        assert(b[start].parent == a[start].parent);
        match a[start].parent {
            Some(p) => {
                if p < start {
                    lemma_in_chain_same(a, b, p as int, j);
                }
            },
            None => {},
        }
    }
}

/// A deck that has reached a limit stays so while no deck gets more left.
pub proof fn lemma_deck_reached_stays(a: Seq<DeckLimit>, b: Seq<DeckLimit>, deck_id: i64, kind: LimitKind)
    requires
        nodes_not_up(a, b),
        deck_reached(a, deck_id, kind),
    ensures
        deck_reached(b, deck_id, kind),
{
    assert forall|i: int| #[trigger] first_node_of(b, deck_id, i) implies chain_reached(b, i, kind) by {
        assert forall|j: int| 0 <= j < i implies #[trigger] a[j].deck_id != deck_id by {
            assert(b[j].deck_id == a[j].deck_id);
            assert(b[j].deck_id != deck_id);
        }
        assert(b[i].deck_id == a[i].deck_id);
        assert(first_node_of(a, deck_id, i));
        assert(chain_reached(a, i, kind));
        let j = choose|j: int| in_chain(a, i, j) && left(#[trigger] a[j], kind) == 0;
        lemma_in_chain_same(a, b, i, j);
        lemma_chain_in_range(a, i, j);
        assert(left(b[j], kind) <= left(a[j], kind));
        assert(in_chain(b, i, j) && left(b[j], kind) == 0);
    }
}

/// The deck's first node, or a deck above it, still wants RWKV reviews.
pub open spec fn deck_wants_minimum(nodes: Seq<DeckLimit>, deck_id: i64) -> bool {
    exists|d: int| #[trigger] first_node_of(nodes, deck_id, d) && chain_wants_minimum(nodes, d)
}

/// A deck that no longer wants RWKV reviews does not come to want them
/// again.
pub proof fn lemma_minimum_done_stays(a: Seq<DeckLimit>, b: Seq<DeckLimit>, deck_id: i64)
    requires
        nodes_not_up(a, b),
        !deck_wants_minimum(a, deck_id),
    ensures
        !deck_wants_minimum(b, deck_id),
{
    if deck_wants_minimum(b, deck_id) {
        let d = choose|d: int| #[trigger] first_node_of(b, deck_id, d) && chain_wants_minimum(b, d);
        assert forall|j: int| 0 <= j < d implies #[trigger] a[j].deck_id != deck_id by {
            assert(b[j].deck_id == a[j].deck_id);
            assert(b[j].deck_id != deck_id);
        }
        assert(b[d].deck_id == a[d].deck_id);
        assert(first_node_of(a, deck_id, d));
        let j = choose|j: int| in_chain(b, d, j) && #[trigger] b[j].rwkv_minimum > 0;
        lemma_in_chain_same(a, b, d, j);
        lemma_chain_in_range(b, d, j);
        assert(a[j].rwkv_minimum > 0);
        assert(chain_wants_minimum(a, d));
    }
}

/// The RWKV reviews the decks still want, all together.
pub open spec fn minimum_sum(nodes: Seq<DeckLimit>) -> int
    decreases nodes.len(),
{
    if nodes.len() == 0 {
        0
    } else {
        minimum_sum(nodes.drop_last()) + nodes.last().rwkv_minimum
    }
}

/// Decks that want no more reviews each want no more in all, and fewer
/// where one wants fewer.
proof fn lemma_minimum_sum_le(a: Seq<DeckLimit>, b: Seq<DeckLimit>)
    requires
        a.len() == b.len(),
        forall|i: int| 0 <= i < a.len() ==> (#[trigger] b[i]).rwkv_minimum <= a[i].rwkv_minimum,
    ensures
        minimum_sum(b) <= minimum_sum(a),
        (exists|j: int| 0 <= j < a.len() && (#[trigger] b[j]).rwkv_minimum < a[j].rwkv_minimum) ==> minimum_sum(b) < minimum_sum(a),
    decreases a.len(),
{
    if a.len() > 0 {
        let a2 = a.drop_last();
        let b2 = b.drop_last();
        assert forall|i: int| 0 <= i < a2.len() implies (#[trigger] b2[i]).rwkv_minimum <= a2[i].rwkv_minimum by {
            assert(b2[i] == b[i] && a2[i] == a[i]);
        }
        lemma_minimum_sum_le(a2, b2);
        if exists|j: int| 0 <= j < a.len() && (#[trigger] b[j]).rwkv_minimum < a[j].rwkv_minimum {
            let j = choose|j: int| 0 <= j < a.len() && (#[trigger] b[j]).rwkv_minimum < a[j].rwkv_minimum;
            if j < a.len() - 1 {
                assert(b2[j] == b[j] && a2[j] == a[j]);
            }
        }
    }
}

/// Taking a card never raises what the decks want of RWKV reviews, and a
/// review taken in a deck that wants them lowers it.
pub proof fn lemma_reserve_spends_minimum(nodes: Seq<DeckLimit>, deck_id: i64, kind: LimitKind)
    ensures
        minimum_sum(reserved_for_deck(nodes, deck_id, kind)) <= minimum_sum(nodes),
        kind == LimitKind::Review && deck_wants_minimum(nodes, deck_id) ==> minimum_sum(
            reserved_for_deck(nodes, deck_id, kind),
        ) < minimum_sum(nodes),
{
    let after = reserved_for_deck(nodes, deck_id, kind);
    if exists|i: int| #[trigger] first_node_of(nodes, deck_id, i) {
        let d = choose|i: int| #[trigger] first_node_of(nodes, deck_id, i);
        assert forall|i: int| 0 <= i < nodes.len() implies (#[trigger] after[i]).rwkv_minimum <= nodes[i].rwkv_minimum by {}
        if kind == LimitKind::Review && deck_wants_minimum(nodes, deck_id) {
            let d2 = choose|d2: int| #[trigger] first_node_of(nodes, deck_id, d2) && chain_wants_minimum(nodes, d2);
            if d2 < d {
                assert(nodes[d2].deck_id != deck_id);
            } else if d2 > d {
                assert(nodes[d].deck_id != deck_id);
            }
            let j = choose|j: int| in_chain(nodes, d, j) && #[trigger] nodes[j].rwkv_minimum > 0;
            lemma_chain_in_range(nodes, d, j);
            assert(after[j].rwkv_minimum < nodes[j].rwkv_minimum);
        }
        lemma_minimum_sum_le(nodes, after);
    } else {
        if deck_wants_minimum(nodes, deck_id) {
            let d2 = choose|d2: int| #[trigger] first_node_of(nodes, deck_id, d2) && chain_wants_minimum(nodes, d2);
            assert(first_node_of(nodes, deck_id, d2));
        }
    }
}

proof fn lemma_chain_in_range(nodes: Seq<DeckLimit>, start: int, j: int)
    requires
        in_chain(nodes, start, j),
    ensures
        0 <= j < nodes.len(),
    decreases start,
{
    if j != start {
        let p = nodes[start].parent->0;
        lemma_chain_in_range(nodes, p as int, j);
    }
}

proof fn lemma_chain_below(nodes: Seq<DeckLimit>, start: int, j: int)
    requires
        tree_wf(nodes),
        in_chain(nodes, start, j),
    ensures
        0 <= j <= start < nodes.len(),
    decreases start,
{
    if j != start {
        let p = nodes[start].parent->0;
        lemma_chain_below(nodes, p as int, j);
    }
}

proof fn lemma_chain_step(nodes: Seq<DeckLimit>, start: int, j: int)
    requires
        tree_wf(nodes),
        0 <= start < nodes.len(),
    ensures
        in_chain(nodes, start, j) <==> (j == start || (nodes[start].parent matches Some(p)
            && in_chain(nodes, p as int, j))),
{
    assert(nodes[start].parent matches Some(p) ==> p < start);
}

impl LimitTree {
    pub open spec fn wf(&self) -> bool {
        tree_wf(self.nodes@)
    }

    /// The index of a deck's node.
    pub fn index_of(&self, deck_id: i64) -> (index: Option<usize>)
        ensures
            match index {
                Some(i) => i < self.nodes@.len() && self.nodes@[i as int].deck_id == deck_id && forall|j: int|
                    0 <= j < i ==> #[trigger] self.nodes@[j].deck_id != deck_id,
                None => forall|j: int| 0 <= j < self.nodes@.len() ==> #[trigger] self.nodes@[j].deck_id != deck_id,
            },
    {
        let mut i: usize = 0;
        while i < self.nodes.len()
            invariant
                i <= self.nodes@.len(),
                forall|j: int| 0 <= j < i ==> #[trigger] self.nodes@[j].deck_id != deck_id,
            decreases self.nodes@.len() - i,
        {
            if self.nodes[i].deck_id == deck_id {
                return Some(i);
            }
            i = i + 1;
        }
        None
    }

    /// The root has nothing left of `kind`.
    pub fn root_limit_reached(&self, kind: LimitKind) -> (reached: bool)
        requires
            self.wf(),
        ensures
            reached == (left(self.nodes@[0], kind) == 0),
    {
        let root = self.nodes[0];
        match kind {
            LimitKind::Review => root.review == 0,
            LimitKind::New => root.new == 0 || root.review == 0,
        }
    }

    /// What the root has left of reviews.
    pub fn remaining_root_limit(&self) -> (left: u32)
        requires
            self.wf(),
        ensures
            left == self.nodes@[0].review,
    {
        self.nodes[0].review
    }

    /// The deck at `index` or one of its ancestors has nothing left.
    pub fn limit_reached(&self, index: usize, kind: LimitKind) -> (reached: bool)
        requires
            self.wf(),
            index < self.nodes@.len(),
        ensures
            reached == chain_reached(self.nodes@, index as int, kind),
    {
        let ghost nodes = self.nodes@;
        let mut cur: usize = index;
        loop
            invariant
                self.wf(),
                nodes == self.nodes@,
                cur < nodes.len(),
                in_chain(nodes, index as int, cur as int),
                forall|j: int|
                    in_chain(nodes, index as int, j) && !in_chain(nodes, cur as int, j) ==> left(
                        #[trigger] nodes[j],
                        kind,
                    ) != 0,
            decreases cur,
        {
            let node = self.nodes[cur];
            let empty = match kind {
                LimitKind::Review => node.review == 0,
                LimitKind::New => node.new == 0 || node.review == 0,
            };
            if empty {
                return true;
            }
            proof {
                lemma_chain_step(nodes, cur as int, cur as int);
            }
            match node.parent {
                Some(p) => {
                    proof {
                        assert forall|j: int|
                            in_chain(nodes, index as int, j) && !in_chain(nodes, p as int, j) implies left(
                            #[trigger] nodes[j],
                            kind,
                        ) != 0 by {
                            lemma_chain_step(nodes, cur as int, j);
                        }
                        lemma_chain_transitive(nodes, index as int, cur as int, p);
                    }
                    cur = p;
                },
                None => {
                    proof {
                        assert forall|j: int| in_chain(nodes, index as int, j) implies left(
                            #[trigger] nodes[j],
                            kind,
                        ) != 0 by {
                            lemma_chain_step(nodes, cur as int, j);
                        }
                    }
                    return false;
                },
            }
        }
    }

    /// Some deck of the chain from `index` up still wants RWKV reviews.
    pub fn rwkv_review_minimum_remaining(&self, index: usize) -> (wants: bool)
        requires
            self.wf(),
            index < self.nodes@.len(),
        ensures
            wants == chain_wants_minimum(self.nodes@, index as int),
    {
        let ghost nodes = self.nodes@;
        let mut cur: usize = index;
        loop
            invariant
                self.wf(),
                nodes == self.nodes@,
                cur < nodes.len(),
                in_chain(nodes, index as int, cur as int),
                forall|j: int|
                    in_chain(nodes, index as int, j) && !in_chain(nodes, cur as int, j) ==> #[trigger] nodes[j].rwkv_minimum == 0,
            decreases cur,
        {
            let node = self.nodes[cur];
            if node.rwkv_minimum > 0 {
                return true;
            }
            proof {
                lemma_chain_step(nodes, cur as int, cur as int);
            }
            match node.parent {
                Some(p) => {
                    proof {
                        assert forall|j: int|
                            in_chain(nodes, index as int, j) && !in_chain(nodes, p as int, j) implies #[trigger] nodes[j].rwkv_minimum == 0 by {
                            lemma_chain_step(nodes, cur as int, j);
                        }
                        lemma_chain_transitive(nodes, index as int, cur as int, p);
                    }
                    cur = p;
                },
                None => {
                    proof {
                        assert forall|j: int| in_chain(nodes, index as int, j) implies #[trigger] nodes[j].rwkv_minimum == 0 by {
                            lemma_chain_step(nodes, cur as int, j);
                        }
                    }
                    return false;
                },
            }
        }
    }

    /// Some deck still wants RWKV reviews.
    pub fn any_rwkv_review_minimum_remaining(&self) -> (wants: bool)
        ensures
            wants == exists|j: int| 0 <= j < self.nodes@.len() && #[trigger] self.nodes@[j].rwkv_minimum > 0,
    {
        let mut i: usize = 0;
        while i < self.nodes.len()
            invariant
                i <= self.nodes@.len(),
                forall|j: int| 0 <= j < i ==> #[trigger] self.nodes@[j].rwkv_minimum == 0,
            decreases self.nodes@.len() - i,
        {
            if self.nodes[i].rwkv_minimum > 0 {
                return true;
            }
            i = i + 1;
        }
        false
    }

    /// Takes one card of `kind` in the deck at `index`: every deck of its
    /// chain has one fewer left.
    pub fn reserve(&mut self, index: usize, kind: LimitKind)
        requires
            old(self).wf(),
            index < old(self).nodes@.len(),
        ensures
            final(self).wf(),
            final(self).nodes@ == reserved(old(self).nodes@, index as int, kind),
            nodes_not_up(old(self).nodes@, final(self).nodes@),
    {
        let ghost nodes = self.nodes@;
        let mut cur: usize = index;
        loop
            invariant
                tree_wf(nodes),
                nodes == old(self).nodes@,
                cur < nodes.len(),
                self.nodes@.len() == nodes.len(),
                in_chain(nodes, index as int, cur as int),
                forall|j: int|
                    0 <= j < nodes.len() ==> (#[trigger] self.nodes@[j] == if in_chain(nodes, index as int, j)
                        && !in_chain(nodes, cur as int, j) {
                        reserved(nodes, index as int, kind)[j]
                    } else {
                        nodes[j]
                    }),
            decreases cur,
        {
            let node = self.nodes[cur];
            proof {
                lemma_chain_step(nodes, cur as int, cur as int);
                assert(self.nodes@[cur as int] == nodes[cur as int]);
            }
            let updated = match kind {
                LimitKind::Review => DeckLimit {
                    review: if node.review > 0 { node.review - 1 } else { 0 },
                    rwkv_minimum: if node.rwkv_minimum > 0 { node.rwkv_minimum - 1 } else { 0 },
                    ..node
                },
                LimitKind::New => DeckLimit {
                    review: if node.review > 0 { node.review - 1 } else { 0 },
                    new: if node.new > 0 { node.new - 1 } else { 0 },
                    ..node
                },
            };
            self.nodes.set(cur, updated);
            match node.parent {
                Some(p) => {
                    proof {
                        assert forall|j: int| 0 <= j < nodes.len() implies (#[trigger] self.nodes@[j]
                            == if in_chain(nodes, index as int, j) && !in_chain(nodes, p as int, j) {
                            reserved(nodes, index as int, kind)[j]
                        } else {
                            nodes[j]
                        }) by {
                            lemma_chain_step(nodes, cur as int, j);
                            if in_chain(nodes, p as int, j) {
                                lemma_chain_below(nodes, p as int, j);
                            }
                        }
                        lemma_chain_transitive(nodes, index as int, cur as int, p);
                    }
                    cur = p;
                },
                None => {
                    proof {
                        assert forall|j: int| 0 <= j < nodes.len() implies #[trigger] self.nodes@[j]
                            == reserved(nodes, index as int, kind)[j] by {
                            lemma_chain_step(nodes, cur as int, j);
                        }
                        assert(self.nodes@ =~= reserved(nodes, index as int, kind));
                        assert forall|j: int| 0 <= j < nodes.len() implies #[trigger] self.nodes@[j].parent
                            == nodes[j].parent by {}
                    }
                    return;
                },
            }
        }
    }

    /// Counts `count` reviews of the deck against the RWKV minimums of its
    /// chain (reviews of it that sit in filtered decks); a deck outside the
    /// tree changes nothing.
    pub fn reserve_rwkv_reviews_if_present(&mut self, deck_id: i64, count: u32)
        requires
            old(self).wf(),
        ensures
            final(self).wf(),
            final(self).nodes@ == minimum_reserved_for_deck(old(self).nodes@, deck_id, count),
    {
        let index = match self.index_of(deck_id) {
            Some(i) => i,
            None => {
                proof {
                    assert(!exists|i: int| #[trigger] first_node_of(self.nodes@, deck_id, i));
                }
                return;
            },
        };
        proof {
            assert(first_node_of(self.nodes@, deck_id, index as int));
            let c = choose|i: int| #[trigger] first_node_of(self.nodes@, deck_id, i);
            if c < index {
                assert(self.nodes@[c].deck_id != deck_id);
            } else if c > index {
                assert(self.nodes@[index as int].deck_id != deck_id);
            }
        }
        let ghost nodes = self.nodes@;
        let mut cur: usize = index;
        loop
            invariant
                tree_wf(nodes),
                nodes == old(self).nodes@,
                cur < nodes.len(),
                self.nodes@.len() == nodes.len(),
                in_chain(nodes, index as int, cur as int),
                first_node_of(nodes, deck_id, index as int),
                forall|j: int|
                    0 <= j < nodes.len() ==> (#[trigger] self.nodes@[j] == if in_chain(nodes, index as int, j)
                        && !in_chain(nodes, cur as int, j) {
                        minimum_reserved(nodes, index as int, count)[j]
                    } else {
                        nodes[j]
                    }),
            decreases cur,
        {
            let node = self.nodes[cur];
            proof {
                lemma_chain_step(nodes, cur as int, cur as int);
                assert(self.nodes@[cur as int] == nodes[cur as int]);
            }
            let updated = DeckLimit {
                rwkv_minimum: if node.rwkv_minimum > count { node.rwkv_minimum - count } else { 0 },
                ..node
            };
            self.nodes.set(cur, updated);
            match node.parent {
                Some(p) => {
                    proof {
                        assert forall|j: int| 0 <= j < nodes.len() implies (#[trigger] self.nodes@[j]
                            == if in_chain(nodes, index as int, j) && !in_chain(nodes, p as int, j) {
                            minimum_reserved(nodes, index as int, count)[j]
                        } else {
                            nodes[j]
                        }) by {
                            lemma_chain_step(nodes, cur as int, j);
                            if in_chain(nodes, p as int, j) {
                                lemma_chain_below(nodes, p as int, j);
                            }
                        }
                        lemma_chain_transitive(nodes, index as int, cur as int, p);
                    }
                    cur = p;
                },
                None => {
                    proof {
                        assert forall|j: int| 0 <= j < nodes.len() implies #[trigger] self.nodes@[j]
                            == minimum_reserved(nodes, index as int, count)[j] by {
                            lemma_chain_step(nodes, cur as int, j);
                        }
                        assert(self.nodes@ =~= minimum_reserved(nodes, index as int, count));
                        assert forall|j: int| 0 <= j < nodes.len() implies #[trigger] self.nodes@[j].parent
                            == nodes[j].parent by {}
                    }
                    return;
                },
            }
        }
    }
}

proof fn lemma_chain_transitive(nodes: Seq<DeckLimit>, a: int, b: int, c: usize)
    requires
        tree_wf(nodes),
        in_chain(nodes, a, b),
        0 <= b < nodes.len(),
        c < nodes.len(),
        nodes[b].parent == Some(c),
    ensures
        in_chain(nodes, a, c as int),
    decreases a,
{
    lemma_chain_below(nodes, a, b);
    assert(match nodes[b].parent {
        Some(p) => p < b,
        None => true,
    });
    assert(c < b);
    if a == b {
        assert(in_chain(nodes, c as int, c as int));
        lemma_chain_step(nodes, a, c as int);
    } else {
        let p = nodes[a].parent->0;
        lemma_chain_step(nodes, a, b);
        lemma_chain_transitive(nodes, p as int, b, c);
        lemma_chain_step(nodes, a, c as int);
    }
}

} // verus!
