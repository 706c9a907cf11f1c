//! Regular models over an alphabet of items, and the matcher that runs them.
//!
//! A model is a tree of leaves, sequences, choices, interleavings and bounded
//! repetitions. The matcher never backtracks: it carries a set of live offsets
//! through the tree, one flag per offset of the input, so every branch of an
//! ambiguous choice stays alive until the input rules it out.

use vstd::prelude::*;

verus! {

/// What a leaf of a model is made of: a test on single items.
pub trait Label {
    type Item;

    /// The items this label stands for.
    spec fn admits(&self, item: &Self::Item) -> bool;

    fn test(&self, item: &Self::Item) -> (b: bool)
        ensures
            b == self.admits(item),
    ;
}

/// One member of an interleaving: it may occur at most once, in any place.
pub struct Member<L> {
    pub label: L,
    pub required: bool,
}

pub enum Model<L> {
    /// Exactly one item that the label admits.
    Leaf(L),
    /// The children one after the other. Without children: the empty input only.
    Sequence(Vec<Model<L>>),
    /// Any one of the children. Without children: the empty input only.
    Choice(Vec<Model<L>>),
    /// The members in any order, each at most once, the required ones exactly once.
    Interleave(Vec<Member<L>>),
    /// The body `min` to `max` times in a row; `None` sets no upper limit.
    Repeat { body: Box<Model<L>>, min: usize, max: Option<usize> },
}

pub open spec fn within(max: Option<usize>, k: int) -> bool {
    match max {
        Some(m) => k <= m,
        None => true,
    }
}

pub open spec fn below(max: Option<usize>, k: int) -> bool {
    match max {
        Some(m) => k < m,
        None => true,
    }
}

/// Member `m` admits the item at offset `t`.
pub open spec fn takes<L: Label>(ms: Seq<Member<L>>, m: int, s: Seq<L::Item>, t: int) -> bool {
    ms[m].label.admits(&s[t])
}

/// Some member admits the item at offset `t`.
pub open spec fn claimed<L: Label>(ms: Seq<Member<L>>, s: Seq<L::Item>, t: int) -> bool {
    exists|m: int| 0 <= m < ms.len() && #[trigger] takes(ms, m, s, t)
}

/// Every item of `s[i..j]` belongs to a member, and no member admits two of them.
pub open spec fn scattered<L: Label>(ms: Seq<Member<L>>, s: Seq<L::Item>, i: int, j: int) -> bool {
    &&& forall|t: int| i <= t < j ==> #[trigger] claimed(ms, s, t)
    &&& forall|t1: int, t2: int, m: int|
        i <= t1 < t2 < j && 0 <= m < ms.len() ==> !(#[trigger] takes(ms, m, s, t1) && #[trigger] takes(
            ms,
            m,
            s,
            t2,
        ))
}

/// Member `m` has its item somewhere in `s[i..j]`.
pub open spec fn served<L: Label>(ms: Seq<Member<L>>, m: int, s: Seq<L::Item>, i: int, j: int) -> bool {
    exists|t: int| i <= t < j && #[trigger] takes(ms, m, s, t)
}

/// `s[i..j]` is an interleaving of the members with none of the required ones missing.
pub open spec fn shuffles<L: Label>(ms: Seq<Member<L>>, s: Seq<L::Item>, i: int, j: int) -> bool {
    &&& scattered(ms, s, i, j)
    &&& forall|m: int| 0 <= m < ms.len() && ms[m].required ==> #[trigger] served(ms, m, s, i, j)
}

/// Names an offset at which a reading is cut in two; always true.
pub open spec fn cut(t: int) -> bool {
    true
}

/// Names a count and an offset together; always true.
pub open spec fn cut_at(c: int, t: int) -> bool {
    true
}

/// The model reads exactly the items `s[i..j]`.
pub open spec fn spans<L: Label>(m: Model<L>, s: Seq<L::Item>, i: int, j: int) -> bool
    decreases m, 0int, 0int,
{
    &&& 0 <= i <= j <= s.len()
    &&& match m {
        Model::Leaf(l) => j == i + 1 && l.admits(&s[i]),
        Model::Sequence(cs) => chain(cs@, cs@.len() as int, s, i, j),
        Model::Choice(cs) => if cs@.len() == 0 {
            i == j
        } else {
            exists|c: int| #[trigger] cut(c) && 0 <= c < cs@.len() && spans(cs@[c], s, i, j)
        },
        Model::Interleave(ms) => shuffles(ms@, s, i, j),
        Model::Repeat { body, min, max } => exists|k: int|
            #[trigger] cut(k) && min <= k && within(max, k) && power(*body, k, s, i, j),
    }
}

/// The first `n` children of `cs`, one after the other, read exactly `s[i..j]`.
pub open spec fn chain<L: Label>(cs: Seq<Model<L>>, n: int, s: Seq<L::Item>, i: int, j: int) -> bool
    decreases cs, 1int, n,
{
    if n <= 0 || n > cs.len() {
        0 <= i == j <= s.len()
    } else {
        exists|t: int|
            #[trigger] cut(t) && i <= t <= j && chain(cs, n - 1, s, i, t) && spans(cs[n - 1], s, t, j)
    }
}

/// `k` readings of `b` in a row read exactly `s[i..j]`.
pub open spec fn power<L: Label>(b: Model<L>, k: int, s: Seq<L::Item>, i: int, j: int) -> bool
    decreases b, 1int, k,
{
    if k <= 0 {
        0 <= i == j <= s.len()
    } else {
        exists|t: int| #[trigger] cut(t) && i <= t <= j && power(b, k - 1, s, i, t) && spans(b, s, t, j)
    }
}

/// The items `s[i..j]` open a reading of the model: nothing in them contradicts it yet.
pub open spec fn begins<L: Label>(m: Model<L>, s: Seq<L::Item>, i: int, j: int) -> bool
    decreases m,
{
    &&& 0 <= i <= j <= s.len()
    &&& match m {
        Model::Leaf(l) => i == j || (j == i + 1 && l.admits(&s[i])),
        Model::Sequence(cs) => if cs@.len() == 0 {
            i == j
        } else {
            exists|c: int, t: int|
                #[trigger] cut_at(c, t) && 0 <= c < cs@.len() && i <= t <= j && chain(cs@, c, s, i, t)
                    && begins(cs@[c], s, t, j)
        },
        Model::Choice(cs) => if cs@.len() == 0 {
            i == j
        } else {
            exists|c: int| #[trigger] cut(c) && 0 <= c < cs@.len() && begins(cs@[c], s, i, j)
        },
        Model::Interleave(ms) => scattered(ms@, s, i, j),
        Model::Repeat { body, min, max } => i == j || exists|k: int, t: int|
            #[trigger] cut_at(k, t) && 0 <= k && below(max, k) && i <= t <= j && power(*body, k, s, i, t)
                && begins(*body, s, t, j),
    }
}

/// The model accepts the whole input.
pub open spec fn accepts<L: Label>(m: Model<L>, s: Seq<L::Item>) -> bool {
    spans(m, s, 0, s.len() as int)
}

/// The first `k` items of the input open a reading of the model.
pub open spec fn viable<L: Label>(m: Model<L>, s: Seq<L::Item>, k: int) -> bool {
    begins(m, s, 0, k)
}

/// The number of items the model can take before the input contradicts it, the
/// search starting at `k`: the least `p >= k` that is the input's length or has
/// `p + 1` items no longer viable.
pub open spec fn stall_from<L: Label>(m: Model<L>, s: Seq<L::Item>, k: int) -> int
    decreases s.len() - k,
{
    if k < 0 || k >= s.len() {
        s.len() as int
    } else if viable(m, s, k + 1) {
        stall_from(m, s, k + 1)
    } else {
        k
    }
}

/// The offset at which the input first contradicts the model, or its length.
pub open spec fn stall<L: Label>(m: Model<L>, s: Seq<L::Item>) -> int {
    stall_from(m, s, 0)
}


/// Some live start offset has the model read exactly up to `j`.
pub open spec fn reach<L: Label>(m: Model<L>, s: Seq<L::Item>, starts: Seq<bool>, j: int) -> bool {
    exists|i: int| 0 <= i <= j && starts[i] && #[trigger] spans(m, s, i, j)
}

/// Some live start offset has the items up to `j` open a reading of the model.
pub open spec fn touch<L: Label>(m: Model<L>, s: Seq<L::Item>, starts: Seq<bool>, j: int) -> bool {
    exists|i: int| 0 <= i <= j && starts[i] && #[trigger] begins(m, s, i, j)
}

/// The live offsets after a model has been run from a set of start offsets:
/// `full` holds where a complete reading ends, `open` where a reading is under way.
pub struct Frontier {
    pub full: Vec<bool>,
    pub open: Vec<bool>,
}

impl Frontier {
    /// The frontier is that of model `m` run on `s` from `starts`.
    pub open spec fn describes<L: Label>(&self, m: Model<L>, s: Seq<L::Item>, starts: Seq<bool>) -> bool {
        &&& self.full@.len() == s.len() + 1
        &&& self.open@.len() == s.len() + 1
        &&& forall|j: int| 0 <= j <= s.len() ==> self.full@[j] == reach(m, s, starts, j)
        &&& forall|j: int| 0 <= j <= s.len() ==> self.open@[j] == touch(m, s, starts, j)
    }
}

fn blank(n: usize) -> (v: Vec<bool>)
    ensures
        v@.len() == n,
        forall|j: int| 0 <= j < n ==> !v@[j],
{
    let mut v: Vec<bool> = Vec::new();
    let mut j: usize = 0;
    while j < n
        invariant
            j <= n,
            v@.len() == j,
            forall|t: int| 0 <= t < j ==> !v@[t],
        decreases n - j,
    {
        v.push(false);
        j += 1;
    }
    v
}

fn copy(a: &Vec<bool>) -> (v: Vec<bool>)
    ensures
        v@ == a@,
{
    let mut v: Vec<bool> = Vec::new();
    let mut j: usize = 0;
    while j < a.len()
        invariant
            j <= a.len(),
            v@.len() == j,
            forall|t: int| 0 <= t < j ==> v@[t] == a@[t],
        decreases a.len() - j,
    {
        v.push(a[j]);
        j += 1;
    }
    assert(v@ =~= a@);
    v
}

fn either(a: &Vec<bool>, b: &Vec<bool>) -> (v: Vec<bool>)
    requires
        a@.len() == b@.len(),
    ensures
        v@.len() == a@.len(),
        forall|j: int| 0 <= j < a@.len() ==> v@[j] == (a@[j] || b@[j]),
{
    let mut v: Vec<bool> = Vec::new();
    let mut j: usize = 0;
    while j < a.len()
        invariant
            j <= a.len(),
            a@.len() == b@.len(),
            v@.len() == j,
            forall|t: int| 0 <= t < j ==> v@[t] == (a@[t] || b@[t]),
        decreases a.len() - j,
    {
        v.push(a[j] || b[j]);
        j += 1;
    }
    v
}

fn advance_leaf<L: Label>(l: &L, s: &Vec<L::Item>, starts: &Vec<bool>, Ghost(m): Ghost<Model<L>>) -> (r:
    Frontier)
    requires
        starts@.len() == s@.len() + 1,
        m == Model::Leaf(*l),
    ensures
        r.describes(m, s@, starts@),
{
    let total = starts.len();
    let mut full: Vec<bool> = Vec::new();
    let mut open: Vec<bool> = Vec::new();
    let mut j: usize = 0;
    while j < total
        invariant
            total == s@.len() + 1,
            starts@.len() == total,
            m == Model::Leaf(*l),
            j <= total,
            full@.len() == j,
            open@.len() == j,
            forall|t: int| 0 <= t < j ==> full@[t] == reach(m, s@, starts@, t),
            forall|t: int| 0 <= t < j ==> open@[t] == touch(m, s@, starts@, t),
        decreases total - j,
    {
        let f = j >= 1 && starts[j - 1] && l.test(&s[j - 1]);
        let o = starts[j] || f;
        proof {
            if f {
                assert(spans(m, s@, j - 1, j as int));
                assert(begins(m, s@, j - 1, j as int));
            }
            if starts[j as int] {
                assert(begins(m, s@, j as int, j as int));
            }
        }
        full.push(f);
        open.push(o);
        j += 1;
    }
    Frontier { full, open }
}


/// One of the first `upto` children reads from a live start exactly up to `j`.
pub open spec fn reach_any<L: Label>(cs: Seq<Model<L>>, upto: int, s: Seq<L::Item>, starts: Seq<bool>, j: int) -> bool {
    exists|c: int| 0 <= c < upto && #[trigger] reach(cs[c], s, starts, j)
}

/// One of the first `upto` children has a reading under way at `j`.
pub open spec fn touch_any<L: Label>(cs: Seq<Model<L>>, upto: int, s: Seq<L::Item>, starts: Seq<bool>, j: int) -> bool {
    exists|c: int| 0 <= c < upto && #[trigger] touch(cs[c], s, starts, j)
}

proof fn lemma_choice<L: Label>(v: Vec<Model<L>>, s: Seq<L::Item>, starts: Seq<bool>, j: int)
    requires
        v@.len() > 0,
        0 <= j <= s.len(),
    ensures
        reach(Model::Choice(v), s, starts, j) == reach_any(v@, v@.len() as int, s, starts, j),
        touch(Model::Choice(v), s, starts, j) == touch_any(v@, v@.len() as int, s, starts, j),
{
    let m = Model::Choice(v);
    let cs = v@;
    if reach(m, s, starts, j) {
        let i = choose|i: int| 0 <= i <= j && starts[i] && #[trigger] spans(m, s, i, j);
        let c = choose|c: int| #[trigger] cut(c) && 0 <= c < cs.len() && spans(cs[c], s, i, j);
        assert(reach(cs[c], s, starts, j));
    }
    if reach_any(cs, cs.len() as int, s, starts, j) {
        let c = choose|c: int| 0 <= c < cs.len() && #[trigger] reach(cs[c], s, starts, j);
        let i = choose|i: int| 0 <= i <= j && starts[i] && #[trigger] spans(cs[c], s, i, j);
        assert(cut(c));
        assert(spans(m, s, i, j));
    }
    if touch(m, s, starts, j) {
        let i = choose|i: int| 0 <= i <= j && starts[i] && #[trigger] begins(m, s, i, j);
        let c = choose|c: int| #[trigger] cut(c) && 0 <= c < cs.len() && begins(cs[c], s, i, j);
        assert(touch(cs[c], s, starts, j));
    }
    if touch_any(cs, cs.len() as int, s, starts, j) {
        let c = choose|c: int| 0 <= c < cs.len() && #[trigger] touch(cs[c], s, starts, j);
        let i = choose|i: int| 0 <= i <= j && starts[i] && #[trigger] begins(cs[c], s, i, j);
        assert(cut(c));
        assert(begins(m, s, i, j));
    }
}

proof fn lemma_empty_choice<L: Label>(v: Vec<Model<L>>, s: Seq<L::Item>, starts: Seq<bool>, j: int)
    requires
        v@.len() == 0,
        0 <= j <= s.len(),
        starts.len() == s.len() + 1,
    ensures
        reach(Model::Choice(v), s, starts, j) == starts[j],
        touch(Model::Choice(v), s, starts, j) == starts[j],
{
    let m = Model::Choice(v);
    if starts[j] {
        assert(spans(m, s, j, j));
        assert(begins(m, s, j, j));
    }
}

fn advance_choice<L: Label>(cs: &Vec<Model<L>>, s: &Vec<L::Item>, starts: &Vec<bool>, Ghost(m): Ghost<Model<L>>) -> (r: Frontier)
    requires
        starts@.len() == s@.len() + 1,
        m == Model::Choice(*cs),
    ensures
        r.describes(m, s@, starts@),
    decreases cs, 1int,
{
    if cs.len() == 0 {
        let r = Frontier { full: copy(starts), open: copy(starts) };
        proof {
            assert forall|j: int| 0 <= j <= s@.len() implies r.full@[j] == reach(m, s@, starts@, j)
                && r.open@[j] == touch(m, s@, starts@, j) by {
                lemma_empty_choice(*cs, s@, starts@, j);
            }
        }
        return r;
    }
    let mut full = blank(starts.len());
    let mut open = blank(starts.len());
    let mut c: usize = 0;
    while c < cs.len()
        invariant
            starts@.len() == s@.len() + 1,
            c <= cs.len(),
            full@.len() == starts@.len(),
            open@.len() == starts@.len(),
            forall|j: int| 0 <= j <= s@.len() ==> full@[j] == reach_any(cs@, c as int, s@, starts@, j),
            forall|j: int| 0 <= j <= s@.len() ==> open@[j] == touch_any(cs@, c as int, s@, starts@, j),
        decreases cs.len() - c,
    {
        let r = advance(&cs[c], s, starts);
        let full2 = either(&full, &r.full);
        let open2 = either(&open, &r.open);
        proof {
            assert forall|j: int| 0 <= j <= s@.len() implies full2@[j] == reach_any(
                cs@,
                c + 1,
                s@,
                starts@,
                j,
            ) by {
                if reach_any(cs@, c + 1, s@, starts@, j) {
                    let w = choose|w: int| 0 <= w < c + 1 && #[trigger] reach(cs@[w], s@, starts@, j);
                }
                if full@[j] {
                    let w = choose|w: int| 0 <= w < c && #[trigger] reach(cs@[w], s@, starts@, j);
                }
                if r.full@[j] {
                    assert(reach(cs@[c as int], s@, starts@, j));
                }
            }
            assert forall|j: int| 0 <= j <= s@.len() implies open2@[j] == touch_any(
                cs@,
                c + 1,
                s@,
                starts@,
                j,
            ) by {
                if touch_any(cs@, c + 1, s@, starts@, j) {
                    let w = choose|w: int| 0 <= w < c + 1 && #[trigger] touch(cs@[w], s@, starts@, j);
                }
                if open@[j] {
                    let w = choose|w: int| 0 <= w < c && #[trigger] touch(cs@[w], s@, starts@, j);
                }
                if r.open@[j] {
                    assert(touch(cs@[c as int], s@, starts@, j));
                }
            }
        }
        full = full2;
        open = open2;
        c += 1;
    }
    proof {
        assert forall|j: int| 0 <= j <= s@.len() implies full@[j] == reach(m, s@, starts@, j) && open@[j]
            == touch(m, s@, starts@, j) by {
            lemma_choice(*cs, s@, starts@, j);
        }
    }
    Frontier { full, open }
}

/// The first `n` children, one after the other, read from a live start exactly up to `j`.
pub open spec fn reach_chain<L: Label>(cs: Seq<Model<L>>, n: int, s: Seq<L::Item>, starts: Seq<bool>, j: int) -> bool {
    exists|i: int| 0 <= i <= j && starts[i] && #[trigger] chain(cs, n, s, i, j)
}

/// From a live start the first `c` children have been read and child `c` is under way at `j`.
pub open spec fn touch_at<L: Label>(cs: Seq<Model<L>>, c: int, s: Seq<L::Item>, starts: Seq<bool>, j: int) -> bool {
    exists|i: int, t: int|
        #[trigger] cut_at(i, t) && 0 <= i <= t <= j && starts[i] && chain(cs, c, s, i, t) && begins(
            cs[c],
            s,
            t,
            j,
        )
}

/// One of the first `n` children is under way at `j`, those before it read in full.
pub open spec fn touch_chain<L: Label>(cs: Seq<Model<L>>, n: int, s: Seq<L::Item>, starts: Seq<bool>, j: int) -> bool {
    exists|c: int| 0 <= c < n && #[trigger] touch_at(cs, c, s, starts, j)
}

proof fn lemma_chain_step<L: Label>(
    cs: Seq<Model<L>>,
    c: int,
    s: Seq<L::Item>,
    starts: Seq<bool>,
    cur: Seq<bool>,
    j: int,
)
    requires
        0 <= c < cs.len(),
        0 <= j <= s.len(),
        cur.len() == s.len() + 1,
        forall|t: int| 0 <= t <= s.len() ==> cur[t] == reach_chain(cs, c, s, starts, t),
    ensures
        reach(cs[c], s, cur, j) == reach_chain(cs, c + 1, s, starts, j),
        touch(cs[c], s, cur, j) == touch_at(cs, c, s, starts, j),
{
    if reach(cs[c], s, cur, j) {
        let t = choose|t: int| 0 <= t <= j && cur[t] && #[trigger] spans(cs[c], s, t, j);
        assert(reach_chain(cs, c, s, starts, t));
        let i = choose|i: int| 0 <= i <= t && starts[i] && #[trigger] chain(cs, c, s, i, t);
        assert(cut(t));
        assert(chain(cs, c + 1, s, i, j));
    }
    if reach_chain(cs, c + 1, s, starts, j) {
        let i = choose|i: int| 0 <= i <= j && starts[i] && #[trigger] chain(cs, c + 1, s, i, j);
        let t = choose|t: int|
            #[trigger] cut(t) && i <= t <= j && chain(cs, c + 1 - 1, s, i, t) && spans(cs[c + 1 - 1], s, t, j);
        assert(reach_chain(cs, c, s, starts, t));
        assert(spans(cs[c], s, t, j));
    }
    if touch(cs[c], s, cur, j) {
        let t = choose|t: int| 0 <= t <= j && cur[t] && #[trigger] begins(cs[c], s, t, j);
        assert(reach_chain(cs, c, s, starts, t));
        let i = choose|i: int| 0 <= i <= t && starts[i] && #[trigger] chain(cs, c, s, i, t);
        assert(cut_at(i, t));
    }
    if touch_at(cs, c, s, starts, j) {
        let (i, t) = choose|i: int, t: int|
            #[trigger] cut_at(i, t) && 0 <= i <= t <= j && starts[i] && chain(cs, c, s, i, t) && begins(
                cs[c],
                s,
                t,
                j,
            );
        assert(reach_chain(cs, c, s, starts, t));
        assert(begins(cs[c], s, t, j));
    }
}

proof fn lemma_sequence<L: Label>(v: Vec<Model<L>>, s: Seq<L::Item>, starts: Seq<bool>, j: int)
    requires
        0 <= j <= s.len(),
        starts.len() == s.len() + 1,
    ensures
        reach(Model::Sequence(v), s, starts, j) == reach_chain(v@, v@.len() as int, s, starts, j),
        v@.len() > 0 ==> touch(Model::Sequence(v), s, starts, j) == touch_chain(
            v@,
            v@.len() as int,
            s,
            starts,
            j,
        ),
        v@.len() == 0 ==> touch(Model::Sequence(v), s, starts, j) == starts[j],
{
    let m = Model::Sequence(v);
    let cs = v@;
    let n = cs.len() as int;
    if reach(m, s, starts, j) {
        let i = choose|i: int| 0 <= i <= j && starts[i] && #[trigger] spans(m, s, i, j);
        assert(chain(cs, n, s, i, j));
    }
    if reach_chain(cs, n, s, starts, j) {
        let i = choose|i: int| 0 <= i <= j && starts[i] && #[trigger] chain(cs, n, s, i, j);
        assert(spans(m, s, i, j));
    }
    if n == 0 {
        if starts[j] {
            assert(begins(m, s, j, j));
        }
    } else {
        if touch(m, s, starts, j) {
            let i = choose|i: int| 0 <= i <= j && starts[i] && #[trigger] begins(m, s, i, j);
            let (c, t) = choose|c: int, t: int|
                #[trigger] cut_at(c, t) && 0 <= c < cs.len() && i <= t <= j && chain(cs, c, s, i, t)
                    && begins(cs[c], s, t, j);
            assert(cut_at(i, t));
            assert(touch_at(cs, c, s, starts, j));
        }
        if touch_chain(cs, n, s, starts, j) {
            let c = choose|c: int| 0 <= c < n && #[trigger] touch_at(cs, c, s, starts, j);
            let (i, t) = choose|i: int, t: int|
                #[trigger] cut_at(i, t) && 0 <= i <= t <= j && starts[i] && chain(cs, c, s, i, t)
                    && begins(cs[c], s, t, j);
            assert(cut_at(c, t));
            assert(begins(m, s, i, j));
        }
    }
}

fn advance_sequence<L: Label>(cs: &Vec<Model<L>>, s: &Vec<L::Item>, starts: &Vec<bool>, Ghost(m): Ghost<Model<L>>) -> (r: Frontier)
    requires
        starts@.len() == s@.len() + 1,
        m == Model::Sequence(*cs),
    ensures
        r.describes(m, s@, starts@),
    decreases cs, 1int,
{
    let mut cur = copy(starts);
    let mut open = if cs.len() == 0 {
        copy(starts)
    } else {
        blank(starts.len())
    };
    proof {
        assert forall|j: int| 0 <= j <= s@.len() implies cur@[j] == reach_chain(cs@, 0, s@, starts@, j) by {
            if starts@[j] {
                assert(chain(cs@, 0, s@, j, j));
            }
        }
    }
    let mut c: usize = 0;
    while c < cs.len()
        invariant
            starts@.len() == s@.len() + 1,
            c <= cs.len(),
            cur@.len() == starts@.len(),
            open@.len() == starts@.len(),
            forall|j: int| 0 <= j <= s@.len() ==> cur@[j] == reach_chain(cs@, c as int, s@, starts@, j),
            cs@.len() > 0 ==> forall|j: int|
                0 <= j <= s@.len() ==> open@[j] == touch_chain(cs@, c as int, s@, starts@, j),
            cs@.len() == 0 ==> open@ == starts@,
        decreases cs.len() - c,
    {
        let r = advance(&cs[c], s, &cur);
        let open2 = either(&open, &r.open);
        proof {
            assert forall|j: int| 0 <= j <= s@.len() implies #[trigger] r.full@[j] == reach_chain(
                cs@,
                c + 1,
                s@,
                starts@,
                j,
            ) by {
                lemma_chain_step(cs@, c as int, s@, starts@, cur@, j);
            }
            assert forall|j: int| 0 <= j <= s@.len() implies #[trigger] open2@[j] == touch_chain(
                cs@,
                c + 1,
                s@,
                starts@,
                j,
            ) by {
                lemma_chain_step(cs@, c as int, s@, starts@, cur@, j);
                if touch_chain(cs@, c + 1, s@, starts@, j) {
                    let w = choose|w: int| 0 <= w < c + 1 && #[trigger] touch_at(cs@, w, s@, starts@, j);
                }
                if open@[j] {
                    let w = choose|w: int| 0 <= w < c && #[trigger] touch_at(cs@, w, s@, starts@, j);
                }
            }
        }
        cur = r.full;
        open = open2;
        c += 1;
    }
    proof {
        assert forall|j: int| 0 <= j <= s@.len() implies cur@[j] == reach(m, s@, starts@, j) && open@[j]
            == touch(m, s@, starts@, j) by {
            lemma_sequence(*cs, s@, starts@, j);
        }
    }
    Frontier { full: cur, open }
}

/// `k` readings of `b` in a row read from a live start exactly up to `j`.
pub open spec fn reach_power<L: Label>(b: Model<L>, k: int, s: Seq<L::Item>, starts: Seq<bool>, j: int) -> bool {
    exists|i: int| 0 <= i <= j && starts[i] && #[trigger] power(b, k, s, i, j)
}

/// From a live start `k` readings of `b` are done and one more is under way at `j`.
pub open spec fn touch_power<L: Label>(b: Model<L>, k: int, s: Seq<L::Item>, starts: Seq<bool>, j: int) -> bool {
    exists|i: int, t: int|
        #[trigger] cut_at(i, t) && 0 <= i <= t <= j && starts[i] && power(b, k, s, i, t) && begins(b, s, t, j)
}

/// Some count from `lo` up to, not including, `hi` has that many readings end at `j`.
pub open spec fn reach_upto<L: Label>(b: Model<L>, lo: int, hi: int, s: Seq<L::Item>, starts: Seq<bool>, j: int) -> bool {
    exists|k: int| lo <= k < hi && #[trigger] reach_power(b, k, s, starts, j)
}

/// Some count below `hi` has that many readings done and one more under way at `j`.
pub open spec fn touch_upto<L: Label>(b: Model<L>, hi: int, s: Seq<L::Item>, starts: Seq<bool>, j: int) -> bool {
    exists|k: int| 0 <= k < hi && #[trigger] touch_power(b, k, s, starts, j)
}

/// How many flags are not set.
pub open spec fn count_false(v: Seq<bool>) -> nat
    decreases v.len(),
{
    if v.len() == 0 {
        0
    } else {
        count_false(v.drop_last()) + if v.last() {
            0nat
        } else {
            1nat
        }
    }
}

proof fn lemma_count_false(a: Seq<bool>, b: Seq<bool>)
    requires
        a.len() == b.len(),
        forall|j: int| 0 <= j < a.len() && a[j] ==> b[j],
    ensures
        count_false(b) <= count_false(a),
        (exists|j: int| 0 <= j < a.len() && b[j] && !a[j]) ==> count_false(b) < count_false(a),
    decreases a.len(),
{
    if a.len() > 0 {
        lemma_count_false(a.drop_last(), b.drop_last());
        if exists|j: int| 0 <= j < a.len() && b[j] && !a[j] {
            let j = choose|j: int| 0 <= j < a.len() && b[j] && !a[j];
            if j < a.len() - 1 {
                assert(b.drop_last()[j] && !a.drop_last()[j]);
            }
        }
    }
}

fn subset(a: &Vec<bool>, b: &Vec<bool>) -> (r: bool)
    requires
        a@.len() == b@.len(),
    ensures
        r == forall|j: int| 0 <= j < a@.len() && a@[j] ==> b@[j],
{
    let mut j: usize = 0;
    while j < a.len()
        invariant
            j <= a.len(),
            a@.len() == b@.len(),
            forall|t: int| 0 <= t < j && a@[t] ==> b@[t],
        decreases a.len() - j,
    {
        if a[j] && !b[j] {
            return false;
        }
        j += 1;
    }
    true
}

fn none(a: &Vec<bool>) -> (r: bool)
    ensures
        r == forall|j: int| 0 <= j < a@.len() ==> !a@[j],
{
    let mut j: usize = 0;
    while j < a.len()
        invariant
            j <= a.len(),
            forall|t: int| 0 <= t < j ==> !a@[t],
        decreases a.len() - j,
    {
        if a[j] {
            return false;
        }
        j += 1;
    }
    true
}

proof fn lemma_power_step<L: Label>(b: Model<L>, k: int, s: Seq<L::Item>, starts: Seq<bool>, cur: Seq<bool>, j: int)
    requires
        0 <= k,
        0 <= j <= s.len(),
        cur.len() == s.len() + 1,
        forall|t: int| 0 <= t <= s.len() ==> cur[t] == reach_power(b, k, s, starts, t),
    ensures
        reach(b, s, cur, j) == reach_power(b, k + 1, s, starts, j),
        touch(b, s, cur, j) == touch_power(b, k, s, starts, j),
{
    if reach(b, s, cur, j) {
        let t = choose|t: int| 0 <= t <= j && cur[t] && #[trigger] spans(b, s, t, j);
        assert(reach_power(b, k, s, starts, t));
        let i = choose|i: int| 0 <= i <= t && starts[i] && #[trigger] power(b, k, s, i, t);
        assert(cut(t));
        assert(power(b, k + 1, s, i, j));
    }
    if reach_power(b, k + 1, s, starts, j) {
        let i = choose|i: int| 0 <= i <= j && starts[i] && #[trigger] power(b, k + 1, s, i, j);
        let t = choose|t: int|
            #[trigger] cut(t) && i <= t <= j && power(b, k + 1 - 1, s, i, t) && spans(b, s, t, j);
        assert(reach_power(b, k, s, starts, t));
        assert(spans(b, s, t, j));
    }
    if touch(b, s, cur, j) {
        let t = choose|t: int| 0 <= t <= j && cur[t] && #[trigger] begins(b, s, t, j);
        assert(reach_power(b, k, s, starts, t));
        let i = choose|i: int| 0 <= i <= t && starts[i] && #[trigger] power(b, k, s, i, t);
        assert(cut_at(i, t));
    }
    if touch_power(b, k, s, starts, j) {
        let (i, t) = choose|i: int, t: int|
            #[trigger] cut_at(i, t) && 0 <= i <= t <= j && starts[i] && power(b, k, s, i, t) && begins(
                b,
                s,
                t,
                j,
            );
        assert(reach_power(b, k, s, starts, t));
        assert(begins(b, s, t, j));
    }
}

/// A set of offsets that holds every end of `k` readings and is closed under one
/// more reading holds every end of `k2 >= k` readings.
proof fn lemma_power_closed<L: Label>(
    b: Model<L>,
    k: int,
    k2: int,
    s: Seq<L::Item>,
    starts: Seq<bool>,
    cover: Seq<bool>,
    j: int,
)
    requires
        0 <= k <= k2,
        0 <= j <= s.len(),
        cover.len() == s.len() + 1,
        forall|t: int| 0 <= t <= s.len() && reach_power(b, k, s, starts, t) ==> cover[t],
        forall|t: int, u: int| 0 <= t <= u <= s.len() && cover[t] && #[trigger] spans(b, s, t, u) ==> cover[u],
        reach_power(b, k2, s, starts, j),
    ensures
        cover[j],
    decreases k2 - k,
{
    if k2 > k {
        let i = choose|i: int| 0 <= i <= j && starts[i] && #[trigger] power(b, k2, s, i, j);
        let t = choose|t: int| #[trigger] cut(t) && i <= t <= j && power(b, k2 - 1, s, i, t) && spans(b, s, t, j);
        assert(reach_power(b, k2 - 1, s, starts, t));
        lemma_power_closed(b, k, k2 - 1, s, starts, cover, t);
    }
}

proof fn lemma_repeat<L: Label>(
    body: Box<Model<L>>,
    min: usize,
    max: Option<usize>,
    s: Seq<L::Item>,
    starts: Seq<bool>,
    full: Seq<bool>,
    open: Seq<bool>,
    cover: Seq<bool>,
    k: int,
    hi: int,
    j: int,
)
    requires
        0 <= k <= hi <= k + 1,
        within(max, k),
        0 <= j <= s.len(),
        starts.len() == s.len() + 1,
        full.len() == s.len() + 1,
        open.len() == s.len() + 1,
        cover.len() == s.len() + 1,
        forall|t: int| 0 <= t <= s.len() ==> full[t] == reach_upto(*body, min as int, hi, s, starts, t),
        forall|t: int| 0 <= t <= s.len() ==> open[t] == (starts[t] || touch_upto(*body, k, s, starts, t)),
        forall|k2: int, t: int|
            k2 >= hi && within(max, k2) && 0 <= t <= s.len() && #[trigger] reach_power(*body, k2, s, starts, t)
                ==> cover[t],
        forall|k2: int, t: int|
            k2 >= k && below(max, k2) && 0 <= t <= s.len() && #[trigger] reach_power(*body, k2, s, starts, t)
                ==> cover[t],
        forall|t: int| 0 <= t <= s.len() && cover[t] ==> full[t],
        forall|t: int| 0 <= t <= s.len() && cover[t] ==> reach_upto(*body, 0, k, s, starts, t),
    ensures
        full[j] == reach(Model::Repeat { body, min, max }, s, starts, j),
        open[j] == touch(Model::Repeat { body, min, max }, s, starts, j),
{
    let m = Model::Repeat { body, min, max };
    let b = *body;
    if full[j] {
        let k0 = choose|k0: int| min <= k0 < hi && #[trigger] reach_power(b, k0, s, starts, j);
        let i = choose|i: int| 0 <= i <= j && starts[i] && #[trigger] power(b, k0, s, i, j);
        assert(cut(k0));
        assert(spans(m, s, i, j));
    }
    if reach(m, s, starts, j) {
        let i = choose|i: int| 0 <= i <= j && starts[i] && #[trigger] spans(m, s, i, j);
        let k2 = choose|k2: int| #[trigger] cut(k2) && min <= k2 && within(max, k2) && power(b, k2, s, i, j);
        assert(reach_power(b, k2, s, starts, j));
        if k2 < hi {
            assert(reach_upto(b, min as int, hi, s, starts, j));
        }
    }
    if open[j] {
        if starts[j] {
            assert(begins(m, s, j, j));
        } else {
            let k0 = choose|k0: int| 0 <= k0 < k && #[trigger] touch_power(b, k0, s, starts, j);
            let (i, t) = choose|i: int, t: int|
                #[trigger] cut_at(i, t) && 0 <= i <= t <= j && starts[i] && power(b, k0, s, i, t) && begins(
                    b,
                    s,
                    t,
                    j,
                );
            assert(cut_at(k0, t));
            assert(begins(m, s, i, j));
        }
    }
    if touch(m, s, starts, j) {
        let i = choose|i: int| 0 <= i <= j && starts[i] && #[trigger] begins(m, s, i, j);
        if i != j {
            let (k2, t) = choose|k2: int, t: int|
                #[trigger] cut_at(k2, t) && 0 <= k2 && below(max, k2) && i <= t <= j && power(b, k2, s, i, t)
                    && begins(b, s, t, j);
            assert(reach_power(b, k2, s, starts, t));
            if k2 < k {
                assert(cut_at(i, t));
                assert(touch_power(b, k2, s, starts, j));
            } else {
                assert(cover[t]);
                let k0 = choose|k0: int| 0 <= k0 < k && #[trigger] reach_power(b, k0, s, starts, t);
                let i0 = choose|i0: int| 0 <= i0 <= t && starts[i0] && #[trigger] power(b, k0, s, i0, t);
                assert(cut_at(i0, t));
                assert(touch_power(b, k0, s, starts, j));
            }
        }
    }
}

fn advance_repeat<L: Label>(
    body: &Box<Model<L>>,
    min: usize,
    max: Option<usize>,
    s: &Vec<L::Item>,
    starts: &Vec<bool>,
) -> (r: Frontier)
    requires
        starts@.len() == s@.len() + 1,
    ensures
        r.describes(Model::Repeat { body: *body, min, max }, s@, starts@),
    decreases body, 1int,
{
    let ghost b = **body;
    let ghost m = Model::Repeat { body: *body, min, max };
    let mut cur = copy(starts);
    let mut full = blank(starts.len());
    let mut open = copy(starts);
    let mut need = min;
    let mut left = max;
    let ghost mut k: int = 0;
    proof {
        assert forall|j: int| 0 <= j <= s@.len() implies cur@[j] == reach_power(b, 0, s@, starts@, j) by {
            if starts@[j] {
                assert(power(b, 0, s@, j, j));
            }
        }
    }
    loop
        invariant
            starts@.len() == s@.len() + 1,
            b == **body,
            m == (Model::Repeat { body: *body, min, max }),
            cur@.len() == starts@.len(),
            full@.len() == starts@.len(),
            open@.len() == starts@.len(),
            0 <= k,
            need == if k < min { min - k } else { 0 },
            within(max, k),
            match max {
                Some(mx) => left == Some((mx - k) as usize),
                None => left.is_none(),
            },
            forall|j: int| 0 <= j <= s@.len() ==> cur@[j] == reach_power(b, k, s@, starts@, j),
            forall|j: int| 0 <= j <= s@.len() ==> full@[j] == reach_upto(b, min as int, k, s@, starts@, j),
            forall|j: int| 0 <= j <= s@.len() ==> open@[j] == (starts@[j] || touch_upto(b, k, s@, starts@, j)),
        decreases need, count_false(full@),
    {
        let ghost full0 = full@;
        if need == 0 {
            if subset(&cur, &full) {
                proof {
                    assert forall|t: int, u: int|
                        0 <= t <= u <= s@.len() && full@[t] && #[trigger] spans(b, s@, t, u) implies full@[u] by {
                        let k0 = choose|k0: int| min <= k0 < k && #[trigger] reach_power(b, k0, s@, starts@, t);
                        assert(reach(b, s@, Seq::new(full@.len(), |x: int| reach_power(b, k0, s@, starts@, x)), u));
                        lemma_power_step(
                            b,
                            k0,
                            s@,
                            starts@,
                            Seq::new(full@.len(), |x: int| reach_power(b, k0, s@, starts@, x)),
                            u,
                        );
                        assert(reach_power(b, k0 + 1, s@, starts@, u));
                        if k0 + 1 < k {
                            assert(reach_upto(b, min as int, k, s@, starts@, u));
                        }
                    }
                    assert forall|k2: int, t: int|
                        k2 >= k && 0 <= t <= s@.len() && #[trigger] reach_power(b, k2, s@, starts@, t) implies full@[t] by {
                        lemma_power_closed(b, k, k2, s@, starts@, full@, t);
                    }
                    assert forall|t: int| 0 <= t <= s@.len() && full@[t] implies reach_upto(
                        b,
                        0,
                        k,
                        s@,
                        starts@,
                        t,
                    ) by {
                        let k0 = choose|k0: int| min <= k0 < k && #[trigger] reach_power(b, k0, s@, starts@, t);
                    }
                    assert forall|j: int| 0 <= j <= s@.len() implies full@[j] == reach(m, s@, starts@, j)
                        && open@[j] == touch(m, s@, starts@, j) by {
                        lemma_repeat(*body, min, max, s@, starts@, full@, open@, full@, k, k, j);
                    }
                }
                return Frontier { full, open };
            }
            full = either(&full, &cur);
            proof {
                lemma_count_false(full0, full@);
                let w = choose|w: int| 0 <= w < cur@.len() && cur@[w] && !full0[w];
                assert(full@[w] && !full0[w]);
            }
        }
        proof {
            assert forall|j: int| 0 <= j <= s@.len() implies full@[j] == reach_upto(
                b,
                min as int,
                k + 1,
                s@,
                starts@,
                j,
            ) by {
                if reach_upto(b, min as int, k + 1, s@, starts@, j) {
                    let k0 = choose|k0: int| min <= k0 < k + 1 && #[trigger] reach_power(b, k0, s@, starts@, j);
                    if k0 < k {
                        assert(reach_upto(b, min as int, k, s@, starts@, j));
                    }
                }
                if full@[j] {
                    if full0[j] {
                        let k0 = choose|k0: int| min <= k0 < k && #[trigger] reach_power(b, k0, s@, starts@, j);
                    } else {
                        assert(reach_power(b, k, s@, starts@, j));
                    }
                }
            }
        }
        let capped = match left {
            Some(x) => x == 0,
            None => false,
        };
        let spent = if capped { true } else { none(&cur) };
        if spent {
            proof {
                let cover = Seq::new(full@.len(), |x: int| false);
                assert forall|k2: int, t: int|
                    k2 >= k && !capped && 0 <= t <= s@.len() && #[trigger] reach_power(b, k2, s@, starts@, t) implies false by {
                    assert forall|u: int| 0 <= u <= s@.len() implies !reach_power(b, k, s@, starts@, u) by {
                        assert(!cur@[u]);
                    }
                    lemma_power_closed(b, k, k2, s@, starts@, cover, t);
                }
                assert forall|j: int| 0 <= j <= s@.len() implies full@[j] == reach(m, s@, starts@, j)
                    && open@[j] == touch(m, s@, starts@, j) by {
                    lemma_repeat(*body, min, max, s@, starts@, full@, open@, cover, k, k + 1, j);
                }
            }
            return Frontier { full, open };
        }
        let r = advance(body, s, &cur);
        let open2 = either(&open, &r.open);
        proof {
            assert forall|j: int| 0 <= j <= s@.len() implies #[trigger] r.full@[j] == reach_power(
                b,
                k + 1,
                s@,
                starts@,
                j,
            ) by {
                lemma_power_step(b, k, s@, starts@, cur@, j);
            }
            assert forall|j: int| 0 <= j <= s@.len() implies #[trigger] open2@[j] == (starts@[j] || touch_upto(
                b,
                k + 1,
                s@,
                starts@,
                j,
            )) by {
                lemma_power_step(b, k, s@, starts@, cur@, j);
                if touch_upto(b, k + 1, s@, starts@, j) {
                    let k0 = choose|k0: int| 0 <= k0 < k + 1 && #[trigger] touch_power(b, k0, s@, starts@, j);
                }
                if touch_upto(b, k, s@, starts@, j) {
                    let k0 = choose|k0: int| 0 <= k0 < k && #[trigger] touch_power(b, k0, s@, starts@, j);
                }
            }
        }
        cur = r.full;
        open = open2;
        if need > 0 {
            need = need - 1;
        }
        left = match left {
            Some(x) => Some(x - 1),
            None => None,
        };
        proof {
            k = k + 1;
        }
    }
}

/// Some live start before `upto` has the model read exactly up to `j`.
pub open spec fn reach_below<L: Label>(m: Model<L>, s: Seq<L::Item>, starts: Seq<bool>, upto: int, j: int) -> bool {
    exists|i: int| 0 <= i <= j && i < upto && starts[i] && #[trigger] spans(m, s, i, j)
}

/// Some live start before `upto` has a reading of the model under way at `j`.
pub open spec fn touch_below<L: Label>(m: Model<L>, s: Seq<L::Item>, starts: Seq<bool>, upto: int, j: int) -> bool {
    exists|i: int| 0 <= i <= j && i < upto && starts[i] && #[trigger] begins(m, s, i, j)
}

/// Marks the members that admit `item`, unless none does or one of them is marked already.
fn claim<L: Label>(ms: &Vec<Member<L>>, item: &L::Item, used: &Vec<bool>) -> (r: Option<Vec<bool>>)
    requires
        used@.len() == ms@.len(),
    ensures
        r.is_some() == ((exists|m: int| 0 <= m < ms@.len() && #[trigger] ms@[m].label.admits(item)) && forall|
            m: int,
        | 0 <= m < ms@.len() && #[trigger] ms@[m].label.admits(item) ==> !used@[m]),
        r matches Some(u) ==> u@.len() == used@.len() && forall|m: int|
            0 <= m < ms@.len() ==> u@[m] == (used@[m] || ms@[m].label.admits(item)),
{
    let mut u: Vec<bool> = Vec::new();
    let mut any = false;
    let mut m: usize = 0;
    while m < ms.len()
        invariant
            m <= ms.len(),
            used@.len() == ms@.len(),
            u@.len() == m,
            any == exists|x: int| 0 <= x < m && #[trigger] ms@[x].label.admits(item),
            forall|x: int| 0 <= x < m && #[trigger] ms@[x].label.admits(item) ==> !used@[x],
            forall|x: int| 0 <= x < m ==> u@[x] == (used@[x] || ms@[x].label.admits(item)),
        decreases ms.len() - m,
    {
        let hit = ms[m].label.test(item);
        if hit && used[m] {
            return None;
        }
        if hit {
            any = true;
        }
        u.push(used[m] || hit);
        m += 1;
    }
    if any {
        Some(u)
    } else {
        None
    }
}

fn complete<L: Label>(ms: &Vec<Member<L>>, used: &Vec<bool>) -> (r: bool)
    requires
        used@.len() == ms@.len(),
    ensures
        r == forall|m: int| 0 <= m < ms@.len() && #[trigger] ms@[m].required ==> used@[m],
{
    let mut m: usize = 0;
    while m < ms.len()
        invariant
            m <= ms.len(),
            used@.len() == ms@.len(),
            forall|x: int| 0 <= x < m && #[trigger] ms@[x].required ==> used@[x],
        decreases ms.len() - m,
    {
        if ms[m].required && !used[m] {
            return false;
        }
        m += 1;
    }
    true
}

/// Adds to `full` and `open` what the interleaving reads when it starts at `i`.
fn shuffle_from<L: Label>(
    ms: &Vec<Member<L>>,
    s: &Vec<L::Item>,
    i: usize,
    full: &mut Vec<bool>,
    open: &mut Vec<bool>,
)
    requires
        i <= s@.len(),
        old(full)@.len() == s@.len() + 1,
        old(open)@.len() == s@.len() + 1,
    ensures
        final(full)@.len() == s@.len() + 1,
        final(open)@.len() == s@.len() + 1,
        forall|t: int|
            0 <= t <= s@.len() ==> final(full)@[t] == (old(full)@[t] || spans(Model::Interleave(*ms), s@, i as int, t)),
        forall|t: int|
            0 <= t <= s@.len() ==> final(open)@[t] == (old(open)@[t] || begins(Model::Interleave(*ms), s@, i as int, t)),
{
    let ghost m = Model::Interleave(*ms);
    let n = s.len();
    let mut used = blank(ms.len());
    let mut j: usize = i;
    open.set(i, true);
    if complete(ms, &used) {
        full.set(i, true);
    }
    proof {
        assert(scattered(ms@, s@, i as int, i as int));
        assert forall|x: int| 0 <= x < ms@.len() implies !served(ms@, x, s@, i as int, i as int) by {}
        assert(begins(m, s@, i as int, i as int));
        if full@[i as int] && !old(full)@[i as int] {
            assert(shuffles(ms@, s@, i as int, i as int));
        }
        if spans(m, s@, i as int, i as int) {
            assert forall|x: int| 0 <= x < ms@.len() && #[trigger] ms@[x].required implies used@[x] by {
                assert(served(ms@, x, s@, i as int, i as int));
            }
        }
    }
    while j < n
        invariant
            n == s@.len(),
            old(full)@.len() == n + 1,
            old(open)@.len() == n + 1,
            m == Model::Interleave(*ms),
            i <= j <= n,
            used@.len() == ms@.len(),
            full@.len() == n + 1,
            open@.len() == n + 1,
            scattered(ms@, s@, i as int, j as int),
            forall|x: int| 0 <= x < ms@.len() ==> used@[x] == served(ms@, x, s@, i as int, j as int),
            forall|t: int|
                0 <= t <= n ==> full@[t] == (old(full)@[t] || (t <= j && spans(m, s@, i as int, t))),
            forall|t: int|
                0 <= t <= n ==> open@[t] == (old(open)@[t] || (t <= j && begins(m, s@, i as int, t))),
        decreases n - j,
    {
        match claim(ms, &s[j], &used) {
            None => {
                proof {
                    assert forall|t: int| j < t <= n implies !scattered(ms@, s@, i as int, t) by {
                        if scattered(ms@, s@, i as int, t) {
                            assert(claimed(ms@, s@, j as int));
                            let x0 = choose|x: int| 0 <= x < ms@.len() && #[trigger] takes(ms@, x, s@, j as int);
                            assert(ms@[x0].label.admits(&s@[j as int]));
                            let x = choose|x: int|
                                0 <= x < ms@.len() && #[trigger] ms@[x].label.admits(&s@[j as int]) && used@[x];
                            let t1 = choose|t1: int| i <= t1 < j && #[trigger] takes(ms@, x, s@, t1);
                            assert(takes(ms@, x, s@, t1) && takes(ms@, x, s@, j as int));
                        }
                    }
                }
                return ;
            },
            Some(u) => {
                proof {
                    let x0 = choose|x: int| 0 <= x < ms@.len() && #[trigger] ms@[x].label.admits(&s@[j as int]);
                    assert(takes(ms@, x0, s@, j as int));
                    assert(claimed(ms@, s@, j as int));
                    assert forall|t1: int, t2: int, x: int|
                        i <= t1 < t2 < j + 1 && 0 <= x < ms@.len() implies !(#[trigger] takes(ms@, x, s@, t1)
                        && #[trigger] takes(ms@, x, s@, t2)) by {
                        if t2 == j && takes(ms@, x, s@, t1) && takes(ms@, x, s@, t2) {
                            assert(served(ms@, x, s@, i as int, j as int));
                            assert(ms@[x].label.admits(&s@[j as int]));
                        }
                    }
                    assert forall|x: int| 0 <= x < ms@.len() implies u@[x] == served(
                        ms@,
                        x,
                        s@,
                        i as int,
                        j + 1,
                    ) by {
                        if served(ms@, x, s@, i as int, j + 1) {
                            let t = choose|t: int| i <= t < j + 1 && #[trigger] takes(ms@, x, s@, t);
                            if t < j {
                                assert(served(ms@, x, s@, i as int, j as int));
                            }
                        }
                        if used@[x] {
                            let t = choose|t: int| i <= t < j && #[trigger] takes(ms@, x, s@, t);
                            assert(takes(ms@, x, s@, t));
                        }
                        if ms@[x].label.admits(&s@[j as int]) {
                            assert(takes(ms@, x, s@, j as int));
                        }
                    }
                }
                used = u;
                j += 1;
                open.set(j, true);
                if complete(ms, &used) {
                    full.set(j, true);
                }
                proof {
                    assert(begins(m, s@, i as int, j as int));
                    if full@[j as int] && !old(full)@[j as int] {
                        assert(shuffles(ms@, s@, i as int, j as int));
                    }
                    if spans(m, s@, i as int, j as int) {
                        assert forall|x: int| 0 <= x < ms@.len() && #[trigger] ms@[x].required implies used@[x] by {
                            assert(served(ms@, x, s@, i as int, j as int));
                        }
                    }
                }
            },
        }
    }
}

fn advance_interleave<L: Label>(ms: &Vec<Member<L>>, s: &Vec<L::Item>, starts: &Vec<bool>) -> (r: Frontier)
    requires
        starts@.len() == s@.len() + 1,
    ensures
        r.describes(Model::Interleave(*ms), s@, starts@),
{
    let ghost m = Model::Interleave(*ms);
    let total = starts.len();
    let mut full = blank(total);
    let mut open = blank(total);
    let mut i: usize = 0;
    while i < total
        invariant
            total == s@.len() + 1,
            starts@.len() == total,
            m == Model::Interleave(*ms),
            i <= total,
            full@.len() == total,
            open@.len() == total,
            forall|j: int| 0 <= j <= s@.len() ==> full@[j] == reach_below(m, s@, starts@, i as int, j),
            forall|j: int| 0 <= j <= s@.len() ==> open@[j] == touch_below(m, s@, starts@, i as int, j),
        decreases total - i,
    {
        let ghost full0 = full@;
        let ghost open0 = open@;
        if starts[i] {
            shuffle_from(ms, s, i, &mut full, &mut open);
        }
        proof {
            assert forall|j: int| 0 <= j <= s@.len() implies #[trigger] full@[j] == reach_below(
                m,
                s@,
                starts@,
                i + 1,
                j,
            ) by {
                if reach_below(m, s@, starts@, i + 1, j) {
                    let w = choose|w: int| 0 <= w <= j && w < i + 1 && starts@[w] && #[trigger] spans(m, s@, w, j);
                    if w < i {
                        assert(reach_below(m, s@, starts@, i as int, j));
                    }
                }
                if full0[j] {
                    let w = choose|w: int| 0 <= w <= j && w < i && starts@[w] && #[trigger] spans(m, s@, w, j);
                }
            }
            assert forall|j: int| 0 <= j <= s@.len() implies #[trigger] open@[j] == touch_below(
                m,
                s@,
                starts@,
                i + 1,
                j,
            ) by {
                if touch_below(m, s@, starts@, i + 1, j) {
                    let w = choose|w: int| 0 <= w <= j && w < i + 1 && starts@[w] && #[trigger] begins(m, s@, w, j);
                    if w < i {
                        assert(touch_below(m, s@, starts@, i as int, j));
                    }
                }
                if open0[j] {
                    let w = choose|w: int| 0 <= w <= j && w < i && starts@[w] && #[trigger] begins(m, s@, w, j);
                }
            }
        }
        i += 1;
    }
    proof {
        assert forall|j: int| 0 <= j <= s@.len() implies full@[j] == reach(m, s@, starts@, j) && open@[j]
            == touch(m, s@, starts@, j) by {
            if reach(m, s@, starts@, j) {
                let w = choose|w: int| 0 <= w <= j && starts@[w] && #[trigger] spans(m, s@, w, j);
            }
            if full@[j] {
                let w = choose|w: int| 0 <= w <= j && w < total && starts@[w] && #[trigger] spans(m, s@, w, j);
            }
            if touch(m, s@, starts@, j) {
                let w = choose|w: int| 0 <= w <= j && starts@[w] && #[trigger] begins(m, s@, w, j);
            }
            if open@[j] {
                let w = choose|w: int| 0 <= w <= j && w < total && starts@[w] && #[trigger] begins(m, s@, w, j);
            }
        }
    }
    Frontier { full, open }
}

/// Runs the model on `s` from every live start offset at once.
pub fn advance<L: Label>(m: &Model<L>, s: &Vec<L::Item>, starts: &Vec<bool>) -> (r: Frontier)
    requires
        starts@.len() == s@.len() + 1,
    ensures
        r.describes(*m, s@, starts@),
    decreases m, 0int,
{
    match m {
        Model::Leaf(l) => advance_leaf(l, s, starts, Ghost(*m)),
        Model::Sequence(cs) => advance_sequence(cs, s, starts, Ghost(*m)),
        Model::Choice(cs) => advance_choice(cs, s, starts, Ghost(*m)),
        Model::Interleave(ms) => advance_interleave(ms, s, starts),
        Model::Repeat { body, min, max } => advance_repeat(body, *min, *max, s, starts),
    }
}


/// What a model makes of an input.
pub struct Reading {
    /// The model accepts the whole input.
    pub accepted: bool,
    /// How many items the model took before the input contradicted it.
    pub stall: usize,
}

/// Runs the model on the whole input: whether it accepts, and where the input stalls.
pub fn read<L: Label>(m: &Model<L>, s: &Vec<L::Item>) -> (r: Reading)
    requires
        s@.len() < usize::MAX,
    ensures
        r.accepted == accepts(*m, s@),
        r.stall == stall(*m, s@),
        r.stall <= s@.len(),
{
    let n = s.len();
    let mut starts = blank(n + 1);
    starts.set(0, true);
    let f = advance(m, s, &starts);
    proof {
        if f.full@[n as int] {
            let i = choose|i: int| 0 <= i <= n && starts@[i] && #[trigger] spans(*m, s@, i, n as int);
        }
        assert forall|k: int| 0 <= k <= n implies f.open@[k] == viable(*m, s@, k) by {
            if f.open@[k] {
                let i = choose|i: int| 0 <= i <= k && starts@[i] && #[trigger] begins(*m, s@, i, k);
            }
        }
    }
    let mut k: usize = 0;
    while k < n && f.open[k + 1]
        invariant
            n == s@.len(),
            n < usize::MAX,
            k <= n,
            f.open@.len() == n + 1,
            forall|t: int| 0 <= t <= n ==> f.open@[t] == viable(*m, s@, t),
            stall_from(*m, s@, k as int) == stall(*m, s@),
        decreases n - k,
    {
        k += 1;
    }
    proof {
        lemma_stall_bound(*m, s@, 0);
    }
    Reading { accepted: f.full[n], stall: k }
}

proof fn lemma_stall_bound<L: Label>(m: Model<L>, s: Seq<L::Item>, k: int)
    requires
        0 <= k <= s.len(),
    ensures
        k <= stall_from(m, s, k) <= s.len(),
    decreases s.len() - k,
{
    if k < s.len() && viable(m, s, k + 1) {
        lemma_stall_bound(m, s, k + 1);
    }
}


/// Every repetition in the model has a minimum that its maximum allows.
pub open spec fn well_bounded<L>(m: Model<L>) -> bool
    decreases m, 0int,
{
    match m {
        Model::Leaf(_) => true,
        Model::Sequence(cs) => bounded_upto(cs@, cs@.len() as int),
        Model::Choice(cs) => bounded_upto(cs@, cs@.len() as int),
        Model::Interleave(_) => true,
        Model::Repeat { body, min, max } => within(max, min as int) && well_bounded(*body),
    }
}

/// The first `n` children are well bounded.
pub open spec fn bounded_upto<L>(cs: Seq<Model<L>>, n: int) -> bool
    decreases cs, 1int, n,
{
    if n <= 0 || n > cs.len() {
        true
    } else {
        bounded_upto(cs, n - 1) && well_bounded(cs[n - 1])
    }
}

/// Checks that every repetition in the model has bounds that can be met.
pub fn check_bounds<L>(m: &Model<L>) -> (b: bool)
    ensures
        b == well_bounded(*m),
    decreases m, 0int,
{
    match m {
        Model::Leaf(_) => true,
        Model::Sequence(cs) => check_bounds_of(cs),
        Model::Choice(cs) => check_bounds_of(cs),
        Model::Interleave(_) => true,
        Model::Repeat { body, min, max } => {
            let fits = match max {
                Some(mx) => *min <= *mx,
                None => true,
            };
            fits && check_bounds(body)
        },
    }
}

fn check_bounds_of<L>(cs: &Vec<Model<L>>) -> (b: bool)
    ensures
        b == bounded_upto(cs@, cs@.len() as int),
    decreases cs, 1int,
{
    let mut c: usize = 0;
    while c < cs.len()
        invariant
            c <= cs.len(),
            bounded_upto(cs@, c as int),
        decreases cs.len() - c,
    {
        if !check_bounds(&cs[c]) {
            proof {
                lemma_unbounded(cs@, c + 1, cs@.len() as int);
            }
            return false;
        }
        c += 1;
    }
    true
}

proof fn lemma_unbounded<L>(cs: Seq<Model<L>>, c: int, n: int)
    requires
        0 < c <= n <= cs.len(),
        !bounded_upto(cs, c),
    ensures
        !bounded_upto(cs, n),
    decreases n - c,
{
    if c < n {
        lemma_unbounded(cs, c, n - 1);
    }
}

/// What a model reads in full, it has begun to read.
pub proof fn lemma_read_is_begun<L: Label>(m: Model<L>, s: Seq<L::Item>, i: int, j: int)
    requires
        spans(m, s, i, j),
    ensures
        begins(m, s, i, j),
    decreases m,
{
    match m {
        Model::Leaf(_) => {},
        Model::Sequence(cs) => {
            let n = cs@.len() as int;
            assert(chain(cs@, n, s, i, j));
            if n > 0 {
                let t = choose|t: int|
                    #[trigger] cut(t) && i <= t <= j && chain(cs@, n - 1, s, i, t) && spans(cs@[n - 1], s, t, j);
                lemma_read_is_begun(cs@[n - 1], s, t, j);
                assert(cut_at(n - 1, t));
            }
        },
        Model::Choice(cs) => {
            if cs@.len() > 0 {
                let c = choose|c: int| #[trigger] cut(c) && 0 <= c < cs@.len() && spans(cs@[c], s, i, j);
                lemma_read_is_begun(cs@[c], s, i, j);
            }
        },
        Model::Interleave(_) => {},
        Model::Repeat { body, min, max } => {
            let k = choose|k: int| #[trigger] cut(k) && min <= k && within(max, k) && power(*body, k, s, i, j);
            assert(power(*body, k, s, i, j));
            if k > 0 {
                let t = choose|t: int|
                    #[trigger] cut(t) && i <= t <= j && power(*body, k - 1, s, i, t) && spans(*body, s, t, j);
                lemma_read_is_begun(*body, s, t, j);
                assert(cut_at(k - 1, t));
            }
        },
    }
}

/// A begun sequence: some child is under way, those before it read in full.
pub open spec fn chain_begun<L: Label>(cs: Seq<Model<L>>, s: Seq<L::Item>, i: int, j: int) -> bool {
    exists|c: int, t: int|
        #[trigger] cut_at(c, t) && 0 <= c < cs.len() && i <= t <= j && chain(cs, c, s, i, t) && begins(
            cs[c],
            s,
            t,
            j,
        )
}

/// A begun repetition: one reading is under way, after fewer than `limit` full ones.
pub open spec fn power_begun<L: Label>(b: Model<L>, limit: int, s: Seq<L::Item>, i: int, j: int) -> bool {
    exists|k: int, t: int|
        #[trigger] cut_at(k, t) && 0 <= k < limit && i <= t <= j && power(b, k, s, i, t) && begins(b, s, t, j)
}

proof fn lemma_chain_prefix<L: Label>(cs: Seq<Model<L>>, c: int, s: Seq<L::Item>, i: int, u: int, t: int)
    requires
        0 < c <= cs.len(),
        chain(cs, c, s, i, u),
        0 <= i <= t <= u <= s.len(),
    ensures
        chain_begun(cs, s, i, t),
    decreases cs, 1int, c,
{
    let v = choose|v: int| #[trigger] cut(v) && i <= v <= u && chain(cs, c - 1, s, i, v) && spans(cs[c - 1], s, v, u);
    if t >= v {
        lemma_read_is_begun(cs[c - 1], s, v, u);
        lemma_begun_prefix(cs[c - 1], s, v, u, t);
        assert(cut_at(c - 1, v));
    } else {
        if c - 1 > 0 {
            lemma_chain_prefix(cs, c - 1, s, i, v, t);
            let (c2, t2) = choose|c2: int, t2: int|
                #[trigger] cut_at(c2, t2) && 0 <= c2 < cs.len() && i <= t2 <= t && chain(cs, c2, s, i, t2)
                    && begins(cs[c2], s, t2, t);
        }
    }
}

proof fn lemma_power_prefix<L: Label>(b: Model<L>, k: int, s: Seq<L::Item>, i: int, u: int, t: int)
    requires
        0 < k,
        power(b, k, s, i, u),
        0 <= i <= t <= u <= s.len(),
    ensures
        power_begun(b, k, s, i, t),
    decreases b, 1int, k,
{
    let v = choose|v: int| #[trigger] cut(v) && i <= v <= u && power(b, k - 1, s, i, v) && spans(b, s, v, u);
    if t >= v {
        lemma_read_is_begun(b, s, v, u);
        lemma_begun_prefix(b, s, v, u, t);
        assert(cut_at(k - 1, v));
    } else {
        if k - 1 > 0 {
            lemma_power_prefix(b, k - 1, s, i, v, t);
            let (k2, t2) = choose|k2: int, t2: int|
                #[trigger] cut_at(k2, t2) && 0 <= k2 < k - 1 && i <= t2 <= t && power(b, k2, s, i, t2) && begins(
                    b,
                    s,
                    t2,
                    t,
                );
            assert(cut_at(k2, t2));
        }
    }
}

/// What has been begun was begun at every offset on the way: the openings of
/// readings are closed under taking prefixes.
pub proof fn lemma_begun_prefix<L: Label>(m: Model<L>, s: Seq<L::Item>, i: int, j: int, t: int)
    requires
        begins(m, s, i, j),
        i <= t <= j,
    ensures
        begins(m, s, i, t),
    decreases m, 0int, 0int,
{
    match m {
        Model::Leaf(_) => {},
        Model::Sequence(cs) => {
            if cs@.len() > 0 {
                let (c, u) = choose|c: int, u: int|
                    #[trigger] cut_at(c, u) && 0 <= c < cs@.len() && i <= u <= j && chain(cs@, c, s, i, u)
                        && begins(cs@[c], s, u, j);
                if t >= u {
                    lemma_begun_prefix(cs@[c], s, u, j, t);
                    assert(cut_at(c, u));
                } else {
                    lemma_chain_prefix(cs@, c, s, i, u, t);
                }
            }
        },
        Model::Choice(cs) => {
            if cs@.len() > 0 {
                let c = choose|c: int| #[trigger] cut(c) && 0 <= c < cs@.len() && begins(cs@[c], s, i, j);
                lemma_begun_prefix(cs@[c], s, i, j, t);
            }
        },
        Model::Interleave(ms) => {
            assert(scattered(ms@, s, i, t));
        },
        Model::Repeat { body, min, max } => {
            if i != j && t != i {
                let (k, u) = choose|k: int, u: int|
                    #[trigger] cut_at(k, u) && 0 <= k && below(max, k) && i <= u <= j && power(*body, k, s, i, u)
                        && begins(*body, s, u, j);
                if t >= u {
                    lemma_begun_prefix(*body, s, u, j, t);
                    assert(cut_at(k, u));
                } else {
                    lemma_power_prefix(*body, k, s, i, u, t);
                    let (k2, t2) = choose|k2: int, t2: int|
                        #[trigger] cut_at(k2, t2) && 0 <= k2 < k && i <= t2 <= t && power(*body, k2, s, i, t2)
                            && begins(*body, s, t2, t);
                    assert(cut_at(k2, t2));
                }
            }
        },
    }
}

proof fn lemma_no_stall<L: Label>(m: Model<L>, s: Seq<L::Item>, k: int)
    requires
        0 <= k <= s.len(),
        viable(m, s, s.len() as int),
    ensures
        stall_from(m, s, k) == s.len(),
    decreases s.len() - k,
{
    if k < s.len() {
        lemma_begun_prefix(m, s, 0, s.len() as int, k + 1);
        lemma_no_stall(m, s, k + 1);
    }
}

/// An input that the model accepts stalls nowhere before its end.
pub proof fn lemma_accepted_never_stalls<L: Label>(m: Model<L>, s: Seq<L::Item>)
    requires
        accepts(m, s),
    ensures
        stall(m, s) == s.len(),
{
    lemma_read_is_begun(m, s, 0, s.len() as int);
    lemma_no_stall(m, s, 0);
}

proof fn lemma_stall_from<L: Label>(m: Model<L>, s: Seq<L::Item>, k: int)
    requires
        0 <= k <= s.len(),
    ensures
        k <= stall_from(m, s, k) <= s.len(),
        stall_from(m, s, k) < s.len() ==> !viable(m, s, stall_from(m, s, k) + 1),
        forall|t: int| k < t <= stall_from(m, s, k) ==> viable(m, s, t),
    decreases s.len() - k,
{
    if k < s.len() && viable(m, s, k + 1) {
        lemma_stall_from(m, s, k + 1);
    }
}

/// Where an input stalls is the earliest mismatch and the last offset that the
/// model can reach: every shorter prefix opens a reading, no longer one does.
pub proof fn lemma_stall_is_the_mismatch<L: Label>(m: Model<L>, s: Seq<L::Item>)
    ensures
        0 <= stall(m, s) <= s.len(),
        forall|t: int| 0 < t <= stall(m, s) ==> viable(m, s, t),
        forall|t: int| stall(m, s) < t <= s.len() ==> !viable(m, s, t),
{
    lemma_stall_from(m, s, 0);
    let k = stall(m, s);
    assert forall|t: int| k < t <= s.len() implies !viable(m, s, t) by {
        if viable(m, s, t) {
            lemma_begun_prefix(m, s, 0, t, k + 1);
        }
    }
}

/// The empty input opens a reading of every model.
pub proof fn lemma_nothing_read_is_viable<L: Label>(m: Model<L>, s: Seq<L::Item>, i: int)
    requires
        0 <= i <= s.len(),
    ensures
        begins(m, s, i, i),
    decreases m, 0int,
{
    match m {
        Model::Leaf(_) => {},
        Model::Sequence(cs) => {
            if cs@.len() > 0 {
                lemma_nothing_read_is_viable(cs@[0], s, i);
                assert(chain(cs@, 0, s, i, i));
                assert(cut_at(0, i));
            }
        },
        Model::Choice(cs) => {
            if cs@.len() > 0 {
                lemma_nothing_read_is_viable(cs@[0], s, i);
                assert(cut(0));
            }
        },
        Model::Interleave(_) => {},
        Model::Repeat { .. } => {},
    }
}

} // verus!
