//! Red-black tree that maps payload addresses to their metadata.

use crate::internals::lock::SpinLock;
use crate::BigAllocMeta;
use vstd::prelude::*;

verus! {

/// Color of a tree node; absent children count as black.
#[derive(Clone, Copy, Debug, PartialEq, Eq, Structural)]
pub enum Color {
    Red,
    Black,
}

/// What can be wrong with the coloring of a tree.
#[derive(Clone, Copy, Debug, PartialEq, Eq, Structural)]
pub enum TreeDefect {
    /// The root is red.
    RedRoot,
    /// A red node has a red child.
    RedRedEdge,
    /// Two paths hold different numbers of black nodes.
    BlackHeightMismatch,
}

/// A tree node together with the subtrees it owns.
pub struct Node {
    key: usize,
    meta: BigAllocMeta,
    left: Option<Box<Node>>,
    right: Option<Box<Node>>,
    color: Color,
}

/// Color of the root of a subtree.
pub closed spec fn root_color(t: Option<Box<Node>>) -> Color {
    match t {
        Some(n) => n.color,
        None => Color::Black,
    }
}

/// What a search for `key` finds below `t`.
pub closed spec fn lookup(t: Option<Box<Node>>, key: usize) -> Option<BigAllocMeta>
    decreases t,
{
    match t {
        None => None,
        Some(n) => if key == n.key {
            Some(n.meta)
        } else if key < n.key {
            lookup(n.left, key)
        } else {
            lookup(n.right, key)
        },
    }
}

/// Every key below `t` lies strictly between `lo` and `hi`, smaller keys to the left.
pub closed spec fn ordered(t: Option<Box<Node>>, lo: int, hi: int) -> bool
    decreases t,
{
    match t {
        None => true,
        Some(n) => lo < n.key < hi && ordered(n.left, lo, n.key as int) && ordered(
            n.right,
            n.key as int,
            hi,
        ),
    }
}

/// Black nodes on the leftmost path below `t`, an absent child counting as one.
pub closed spec fn height(t: Option<Box<Node>>) -> nat
    decreases t,
{
    match t {
        None => 1,
        Some(n) => height(n.left) + if n.color == Color::Black {
            1nat
        } else {
            0nat
        },
    }
}

/// All paths below `t` hold equally many black nodes and no red node has a red child.
pub closed spec fn balanced(t: Option<Box<Node>>) -> bool
    decreases t,
{
    match t {
        None => true,
        Some(n) => {
            &&& balanced(n.left)
            &&& balanced(n.right)
            &&& height(n.left) == height(n.right)
            &&& n.color == Color::Red ==> root_color(n.left) == Color::Black && root_color(n.right)
                == Color::Black
        },
    }
}

/// Like `balanced`, except that a red root may have one red child.
spec fn almost_balanced(t: Option<Box<Node>>) -> bool {
    match t {
        None => true,
        Some(n) => {
            &&& balanced(n.left)
            &&& balanced(n.right)
            &&& height(n.left) == height(n.right)
            &&& n.color == Color::Red ==> root_color(n.left) == Color::Black || root_color(n.right)
                == Color::Black
        },
    }
}

/// A search first compares with the root and then continues in one of its subtrees.
broadcast proof fn lemma_lookup_step(n: Box<Node>, key: usize)
    ensures
        #[trigger] lookup(Some(n), key) == if key == n.key {
            Some(n.meta)
        } else if key < n.key {
            lookup(n.left, key)
        } else {
            lookup(n.right, key)
        },
{
}

/// A search for a key outside the bounds finds nothing.
proof fn lemma_outside(t: Option<Box<Node>>, lo: int, hi: int)
    requires
        ordered(t, lo, hi),
    ensures
        forall|k: usize| !(lo < k < hi) ==> #[trigger] lookup(t, k) is None,
    decreases t,
{
    broadcast use lemma_lookup_step;

    if let Some(n) = t {
        lemma_outside(n.left, lo, n.key as int);
        lemma_outside(n.right, n.key as int, hi);
    }
}

/// Keys within some bounds lie within any wider bounds.
proof fn lemma_widen(t: Option<Box<Node>>, lo: int, hi: int, wide_lo: int, wide_hi: int)
    requires
        ordered(t, lo, hi),
        wide_lo <= lo,
        hi <= wide_hi,
    ensures
        ordered(t, wide_lo, wide_hi),
    decreases t,
{
    if let Some(n) = t {
        lemma_widen(n.left, lo, n.key as int, wide_lo, n.key as int);
        lemma_widen(n.right, n.key as int, hi, n.key as int, wide_hi);
    }
}

fn color_of(t: &Option<Box<Node>>) -> (c: Color)
    ensures
        c == root_color(*t),
{
    match t {
        Some(n) => n.color,
        None => Color::Black,
    }
}

/// Lifts the right child of `x` above it.
fn rotate_left(x: Box<Node>, Ghost(lo): Ghost<int>, Ghost(hi): Ghost<int>) -> (r: Box<Node>)
    requires
        x.right is Some,
        ordered(Some(x), lo, hi),
    ensures
        r == (Box::new(Node {
            left: Some(Box::new(Node { right: (x.right->0).left, ..*x })),
            ..*(x.right->0)
        })),
        ordered(Some(r), lo, hi),
        forall|k: usize| #[trigger] lookup(Some(r), k) == lookup(Some(x), k),
{
    broadcast use lemma_lookup_step;

    let mut x = x;
    match x.right.take() {
        Some(mut y) => {
            x.right = y.left.take();
            y.left = Some(x);
            proof {
                reveal_with_fuel(ordered, 3);
            }
            y
        },
        None => x,
    }
}

/// Lifts the left child of `x` above it.
fn rotate_right(x: Box<Node>, Ghost(lo): Ghost<int>, Ghost(hi): Ghost<int>) -> (r: Box<Node>)
    requires
        x.left is Some,
        ordered(Some(x), lo, hi),
    ensures
        r == (Box::new(Node {
            right: Some(Box::new(Node { left: (x.left->0).right, ..*x })),
            ..*(x.left->0)
        })),
        ordered(Some(r), lo, hi),
        forall|k: usize| #[trigger] lookup(Some(r), k) == lookup(Some(x), k),
{
    broadcast use lemma_lookup_step;

    let mut x = x;
    match x.left.take() {
        Some(mut y) => {
            x.left = y.right.take();
            y.right = Some(x);
            proof {
                reveal_with_fuel(ordered, 3);
            }
            y
        },
        None => x,
    }
}

/// The subtree `t` with its root colored `c`.
spec fn colored(t: Option<Box<Node>>, c: Color) -> Option<Box<Node>> {
    match t {
        Some(n) => Some(Box::new(Node { color: c, ..*n })),
        None => None,
    }
}

/// Colors never influence the order of keys or what a search finds.
proof fn lemma_colored(t: Option<Box<Node>>, c: Color, lo: int, hi: int)
    ensures
        ordered(colored(t, c), lo, hi) == ordered(t, lo, hi),
        forall|k: usize| #[trigger] lookup(colored(t, c), k) == lookup(t, k),
        t is Some ==> root_color(colored(t, c)) == c,
        balanced(t) && c == Color::Black ==> balanced(colored(t, c)),
        height(colored(t, c)) - (if root_color(colored(t, c)) == Color::Black {
            1int
        } else {
            0int
        }) == height(t) - (if root_color(t) == Color::Black {
            1int
        } else {
            0int
        }),
{
    broadcast use lemma_lookup_step;

}

fn set_color(t: Option<Box<Node>>, c: Color) -> (r: Option<Box<Node>>)
    ensures
        r == colored(t, c),
{
    match t {
        Some(mut n) => {
            n.color = c;
            Some(n)
        },
        None => None,
    }
}

/// Two subtrees that order their keys within the same bounds and hold the same entries.
spec fn same_entries(a: Option<Box<Node>>, b: Option<Box<Node>>) -> bool {
    forall|k: usize| #[trigger] lookup(a, k) == lookup(b, k)
}

/// Repairs a red left child that has a red child of its own.
fn insert_fixup_left(g: Box<Node>, Ghost(lo): Ghost<int>, Ghost(hi): Ghost<int>) -> (r: Box<Node>)
    requires
        g.color == Color::Black,
        almost_balanced(g.left),
        balanced(g.right),
        height(g.left) == height(g.right),
        ordered(Some(g), lo, hi),
    ensures
        balanced(Some(r)),
        height(Some(r)) == height(Some(g)),
        ordered(Some(r), lo, hi),
        same_entries(Some(r), Some(g)),
{
    broadcast use lemma_lookup_step;

    proof {
        reveal_with_fuel(ordered, 3);
        reveal_with_fuel(balanced, 3);
        reveal_with_fuel(height, 3);
        lemma_colored(g.right, Color::Black, g.key as int, hi);
    }
    let mut g = g;
    match g.left.take() {
        None => g,
        Some(mut zp) => {
            let outer: bool = matches!(color_of(&zp.left), Color::Red);
            let inner: bool = matches!(color_of(&zp.right), Color::Red);
            if matches!(zp.color, Color::Black) || !(outer || inner) {
                g.left = Some(zp);
                g
            } else if matches!(color_of(&g.right), Color::Red) {
                zp.color = Color::Black;
                g.left = Some(zp);
                let uncle = g.right.take();
                g.right = set_color(uncle, Color::Black);
                g.color = Color::Red;
                g
            } else {
                let ghost mid = g.key as int;
                let mut zp = if inner {
                    rotate_left(zp, Ghost(lo), Ghost(mid))
                } else {
                    zp
                };
                zp.color = Color::Black;
                g.left = Some(zp);
                g.color = Color::Red;
                rotate_right(g, Ghost(lo), Ghost(hi))
            }
        },
    }
}

/// Repairs a red right child that has a red child of its own.
fn insert_fixup_right(g: Box<Node>, Ghost(lo): Ghost<int>, Ghost(hi): Ghost<int>) -> (r: Box<Node>)
    requires
        g.color == Color::Black,
        almost_balanced(g.right),
        balanced(g.left),
        height(g.right) == height(g.left),
        ordered(Some(g), lo, hi),
    ensures
        balanced(Some(r)),
        height(Some(r)) == height(Some(g)),
        ordered(Some(r), lo, hi),
        same_entries(Some(r), Some(g)),
{
    broadcast use lemma_lookup_step;

    proof {
        reveal_with_fuel(ordered, 3);
        reveal_with_fuel(balanced, 3);
        reveal_with_fuel(height, 3);
        lemma_colored(g.left, Color::Black, lo, g.key as int);
    }
    let mut g = g;
    match g.right.take() {
        None => g,
        Some(mut zp) => {
            let outer: bool = matches!(color_of(&zp.right), Color::Red);
            let inner: bool = matches!(color_of(&zp.left), Color::Red);
            if matches!(zp.color, Color::Black) || !(outer || inner) {
                g.right = Some(zp);
                g
            } else if matches!(color_of(&g.left), Color::Red) {
                zp.color = Color::Black;
                g.right = Some(zp);
                let uncle = g.left.take();
                g.left = set_color(uncle, Color::Black);
                g.color = Color::Red;
                g
            } else {
                let ghost mid = g.key as int;
                let mut zp = if inner {
                    rotate_right(zp, Ghost(mid), Ghost(hi))
                } else {
                    zp
                };
                zp.color = Color::Black;
                g.right = Some(zp);
                g.color = Color::Red;
                rotate_left(g, Ghost(lo), Ghost(hi))
            }
        },
    }
}


/// Adds `key` below `t`, or overwrites its metadata when it is already there.
fn insert_node(
    t: Option<Box<Node>>,
    key: usize,
    meta: BigAllocMeta,
    Ghost(lo): Ghost<int>,
    Ghost(hi): Ghost<int>,
) -> (r: Box<Node>)
    requires
        balanced(t),
        ordered(t, lo, hi),
        lo < key < hi,
    ensures
        almost_balanced(Some(r)),
        root_color(t) == Color::Black ==> balanced(Some(r)),
        root_color(t) == Color::Red ==> r.color == Color::Red,
        height(Some(r)) == height(t),
        ordered(Some(r), lo, hi),
        forall|k: usize| #[trigger]
            lookup(Some(r), k) == if k == key {
                Some(meta)
            } else {
                lookup(t, k)
            },
    decreases t,
{
    broadcast use lemma_lookup_step;

    proof {
        reveal_with_fuel(height, 2);
        reveal_with_fuel(ordered, 2);
        reveal_with_fuel(balanced, 2);
    }
    match t {
        None => {
            Box::new(Node { key, meta, left: None, right: None, color: Color::Red })
        },
        Some(mut n) => {
            if key == n.key {
                n.meta = meta;
                n
            } else if key < n.key {
                let below = n.left.take();
                let ghost mid = n.key as int;
                n.left = Some(insert_node(below, key, meta, Ghost(lo), Ghost(mid)));
                if matches!(n.color, Color::Black) {
                    insert_fixup_left(n, Ghost(lo), Ghost(hi))
                } else {
                    n
                }
            } else {
                let below = n.right.take();
                let ghost mid = n.key as int;
                n.right = Some(insert_node(below, key, meta, Ghost(mid), Ghost(hi)));
                if matches!(n.color, Color::Black) {
                    insert_fixup_right(n, Ghost(lo), Ghost(hi))
                } else {
                    n
                }
            }
        },
    }
}

/// Repairs a left subtree that is one black node short and has a black sibling; the flag tells
/// whether the whole subtree is still short afterwards.
fn delete_fixup_left_black(p: Box<Node>, Ghost(lo): Ghost<int>, Ghost(hi): Ghost<int>) -> (r: (
    Box<Node>,
    bool,
))
    requires
        balanced(p.left),
        balanced(p.right),
        root_color(p.left) == Color::Black,
        root_color(p.right) == Color::Black,
        height(p.left) + 1 == height(p.right),
        ordered(Some(p), lo, hi),
    ensures
        balanced(Some(r.0)),
        height(Some(r.0)) + (if r.1 {
            1int
        } else {
            0int
        }) == height(Some(p)) + 1,
        r.1 ==> r.0.color == Color::Black && p.color == Color::Black,
        p.color == Color::Black ==> r.0.color == Color::Black,
        ordered(Some(r.0), lo, hi),
        same_entries(Some(r.0), Some(p)),
{
    broadcast use lemma_lookup_step;

    proof {
        reveal_with_fuel(ordered, 2);
        reveal_with_fuel(balanced, 2);
        reveal_with_fuel(height, 2);
    }
    let mut p = p;
    let ghost mid = p.key as int;
    match p.right.take() {
        None => (p, false),
        Some(mut w) => {
            let ghost w0 = w;
            if matches!(color_of(&w.left), Color::Black) && matches!(
                color_of(&w.right),
                Color::Black
            ) {
                w.color = Color::Red;
                p.right = Some(w);
                if matches!(p.color, Color::Red) {
                    p.color = Color::Black;
                    (p, false)
                } else {
                    (p, true)
                }
            } else {
                let mut w = if matches!(color_of(&w.right), Color::Black) {
                    let near = w.left.take();
                    proof {
                        lemma_colored(near, Color::Black, mid, w0.key as int);
                    }
                    w.left = set_color(near, Color::Black);
                    w.color = Color::Red;
                    assert(same_entries(Some(w), Some(w0)));
                    rotate_right(w, Ghost(mid), Ghost(hi))
                } else {
                    w
                };
                assert(same_entries(Some(w), Some(w0)));
                assert(ordered(Some(w), mid, hi));
                let ghost w1 = w;
                w.color = p.color;
                let far = w.right.take();
                proof {
                    lemma_colored(far, Color::Black, w.key as int, hi);
                }
                w.right = set_color(far, Color::Black);
                p.color = Color::Black;
                assert(same_entries(Some(w), Some(w1)));
                assert(balanced(w.right));
                assert(balanced(w.left));
                p.right = Some(w);
                (rotate_left(p, Ghost(lo), Ghost(hi)), false)
            }
        },
    }
}

/// Repairs a left subtree that is one black node short; the flag tells whether the whole
/// subtree is still short afterwards.
fn delete_fixup_left(p: Box<Node>, Ghost(lo): Ghost<int>, Ghost(hi): Ghost<int>) -> (r: (
    Box<Node>,
    bool,
))
    requires
        balanced(p.left),
        balanced(p.right),
        root_color(p.left) == Color::Black,
        height(p.left) + 1 == height(p.right),
        p.color == Color::Red ==> root_color(p.right) == Color::Black,
        ordered(Some(p), lo, hi),
    ensures
        balanced(Some(r.0)),
        height(Some(r.0)) + (if r.1 {
            1int
        } else {
            0int
        }) == height(Some(p)) + 1,
        r.1 ==> r.0.color == Color::Black,
        p.color == Color::Black ==> r.0.color == Color::Black,
        ordered(Some(r.0), lo, hi),
        same_entries(Some(r.0), Some(p)),
{
    broadcast use lemma_lookup_step;

    proof {
        reveal_with_fuel(ordered, 2);
        reveal_with_fuel(balanced, 2);
        reveal_with_fuel(height, 2);
    }
    if matches!(color_of(&p.right), Color::Red) {
        let mut p = p;
        p.color = Color::Red;
        let sibling = p.right.take();
        p.right = set_color(sibling, Color::Black);
        let mut top = rotate_left(p, Ghost(lo), Ghost(hi));
        let ghost mid = top.key as int;
        if let Some(lower) = top.left.take() {
            let (fixed, _) = delete_fixup_left_black(lower, Ghost(lo), Ghost(mid));
            top.left = Some(fixed);
        }
        (top, false)
    } else {
        delete_fixup_left_black(p, Ghost(lo), Ghost(hi))
    }
}

/// Repairs a right subtree that is one black node short and has a black sibling; the flag tells
/// whether the whole subtree is still short afterwards.
fn delete_fixup_right_black(p: Box<Node>, Ghost(lo): Ghost<int>, Ghost(hi): Ghost<int>) -> (r: (
    Box<Node>,
    bool,
))
    requires
        balanced(p.right),
        balanced(p.left),
        root_color(p.right) == Color::Black,
        root_color(p.left) == Color::Black,
        height(p.right) + 1 == height(p.left),
        ordered(Some(p), lo, hi),
    ensures
        balanced(Some(r.0)),
        height(Some(r.0)) + (if r.1 {
            1int
        } else {
            0int
        }) == height(Some(p)),
        r.1 ==> r.0.color == Color::Black && p.color == Color::Black,
        p.color == Color::Black ==> r.0.color == Color::Black,
        ordered(Some(r.0), lo, hi),
        same_entries(Some(r.0), Some(p)),
{
    broadcast use lemma_lookup_step;

    proof {
        reveal_with_fuel(ordered, 2);
        reveal_with_fuel(balanced, 2);
        reveal_with_fuel(height, 2);
    }
    let mut p = p;
    let ghost mid = p.key as int;
    match p.left.take() {
        None => (p, false),
        Some(mut w) => {
            let ghost w0 = w;
            if matches!(color_of(&w.right), Color::Black) && matches!(
                color_of(&w.left),
                Color::Black
            ) {
                w.color = Color::Red;
                p.left = Some(w);
                if matches!(p.color, Color::Red) {
                    p.color = Color::Black;
                    (p, false)
                } else {
                    (p, true)
                }
            } else {
                let mut w = if matches!(color_of(&w.left), Color::Black) {
                    let near = w.right.take();
                    proof {
                        lemma_colored(near, Color::Black, w0.key as int, mid);
                    }
                    w.right = set_color(near, Color::Black);
                    w.color = Color::Red;
                    assert(same_entries(Some(w), Some(w0)));
                    rotate_left(w, Ghost(lo), Ghost(mid))
                } else {
                    w
                };
                assert(same_entries(Some(w), Some(w0)));
                assert(ordered(Some(w), lo, mid));
                let ghost w1 = w;
                w.color = p.color;
                let far = w.left.take();
                proof {
                    lemma_colored(far, Color::Black, lo, w.key as int);
                }
                w.left = set_color(far, Color::Black);
                p.color = Color::Black;
                assert(same_entries(Some(w), Some(w1)));
                assert(balanced(w.left));
                assert(balanced(w.right));
                p.left = Some(w);
                (rotate_right(p, Ghost(lo), Ghost(hi)), false)
            }
        },
    }
}

/// Repairs a right subtree that is one black node short; the flag tells whether the whole
/// subtree is still short afterwards.
fn delete_fixup_right(p: Box<Node>, Ghost(lo): Ghost<int>, Ghost(hi): Ghost<int>) -> (r: (
    Box<Node>,
    bool,
))
    requires
        balanced(p.right),
        balanced(p.left),
        root_color(p.right) == Color::Black,
        height(p.right) + 1 == height(p.left),
        p.color == Color::Red ==> root_color(p.left) == Color::Black,
        ordered(Some(p), lo, hi),
    ensures
        balanced(Some(r.0)),
        height(Some(r.0)) + (if r.1 {
            1int
        } else {
            0int
        }) == height(Some(p)),
        r.1 ==> r.0.color == Color::Black,
        p.color == Color::Black ==> r.0.color == Color::Black,
        ordered(Some(r.0), lo, hi),
        same_entries(Some(r.0), Some(p)),
{
    broadcast use lemma_lookup_step;

    proof {
        reveal_with_fuel(ordered, 2);
        reveal_with_fuel(balanced, 2);
        reveal_with_fuel(height, 2);
    }
    if matches!(color_of(&p.left), Color::Red) {
        let mut p = p;
        p.color = Color::Red;
        let sibling = p.left.take();
        p.left = set_color(sibling, Color::Black);
        let mut top = rotate_right(p, Ghost(lo), Ghost(hi));
        let ghost mid = top.key as int;
        if let Some(lower) = top.right.take() {
            let (fixed, _) = delete_fixup_right_black(lower, Ghost(mid), Ghost(hi));
            top.right = Some(fixed);
        }
        (top, false)
    } else {
        delete_fixup_right_black(p, Ghost(lo), Ghost(hi))
    }
}

/// Takes the smallest key out of a subtree; the flag tells whether the rest is one black node
/// short.
fn remove_minimum(n: Box<Node>, Ghost(lo): Ghost<int>, Ghost(hi): Ghost<int>) -> (r: (
    Option<Box<Node>>,
    usize,
    BigAllocMeta,
    bool,
))
    requires
        balanced(Some(n)),
        ordered(Some(n), lo, hi),
    ensures
        balanced(r.0),
        height(r.0) + (if r.3 {
            1int
        } else {
            0int
        }) == height(Some(n)),
        r.3 ==> root_color(r.0) == Color::Black,
        n.color == Color::Black ==> root_color(r.0) == Color::Black,
        lo < r.1 < hi,
        ordered(r.0, r.1 as int, hi),
        lookup(Some(n), r.1) == Some(r.2),
        forall|k: usize| k < r.1 ==> #[trigger] lookup(Some(n), k) is None,
        forall|k: usize| #[trigger]
            lookup(r.0, k) == if k == r.1 {
                None
            } else {
                lookup(Some(n), k)
            },
    decreases n,
{
    broadcast use lemma_lookup_step;

    proof {
        reveal_with_fuel(ordered, 2);
        reveal_with_fuel(balanced, 2);
        reveal_with_fuel(height, 2);
        lemma_outside(n.left, lo, n.key as int);
        lemma_outside(n.right, n.key as int, hi);
    }
    let mut n = n;
    let ghost mid = n.key as int;
    match n.left.take() {
        None => {
            let x = n.right.take();
            if matches!(n.color, Color::Red) {
                (x, n.key, n.meta, false)
            } else if matches!(color_of(&x), Color::Red) {
                proof {
                    lemma_colored(x, Color::Black, mid, hi);
                }
                (set_color(x, Color::Black), n.key, n.meta, false)
            } else {
                (x, n.key, n.meta, true)
            }
        },
        Some(below) => {
            let (rest, key, meta, short) = remove_minimum(below, Ghost(lo), Ghost(mid));
            n.left = rest;
            if short {
                let (fixed, still) = delete_fixup_left(n, Ghost(key as int), Ghost(hi));
                (Some(fixed), key, meta, still)
            } else {
                (Some(n), key, meta, false)
            }
        },
    }
}

/// Puts the only child of a removed node of color `c` in its place.
fn replace_by_child(x: Option<Box<Node>>, c: Color) -> (r: (Option<Box<Node>>, bool))
    requires
        balanced(x),
        c == Color::Red ==> root_color(x) == Color::Black,
    ensures
        balanced(r.0),
        height(r.0) + (if r.1 {
            1int
        } else {
            0int
        }) == height(x) + (if c == Color::Black {
            1int
        } else {
            0int
        }),
        root_color(r.0) == Color::Black,
        r.0 == colored(x, Color::Black),
{
    if matches!(c, Color::Red) {
        (x, false)
    } else if matches!(color_of(&x), Color::Red) {
        (set_color(x, Color::Black), false)
    } else {
        (x, true)
    }
}

/// Takes the root out of a subtree; the flag tells whether the rest is one black node short.
fn remove_root(n: Box<Node>, Ghost(lo): Ghost<int>, Ghost(hi): Ghost<int>) -> (r: (
    Option<Box<Node>>,
    bool,
))
    requires
        balanced(Some(n)),
        ordered(Some(n), lo, hi),
    ensures
        balanced(r.0),
        height(r.0) + (if r.1 {
            1int
        } else {
            0int
        }) == height(Some(n)),
        r.1 ==> root_color(r.0) == Color::Black,
        n.color == Color::Black ==> root_color(r.0) == Color::Black,
        ordered(r.0, lo, hi),
        forall|k: usize| #[trigger]
            lookup(r.0, k) == if k == n.key {
                None
            } else {
                lookup(Some(n), k)
            },
{
    broadcast use lemma_lookup_step;

    let ghost mid = n.key as int;
    proof {
        lemma_outside(n.left, lo, mid);
        lemma_outside(n.right, mid, hi);
        lemma_widen(n.left, lo, mid, lo, hi);
        lemma_widen(n.right, mid, hi, lo, hi);
        lemma_colored(n.left, Color::Black, lo, hi);
        lemma_colored(n.right, Color::Black, lo, hi);
    }
    let mut n = n;
    if n.left.is_none() {
        replace_by_child(n.right.take(), n.color)
    } else {
        match n.right.take() {
            None => replace_by_child(n.left.take(), n.color),
            Some(y) => {
                let (rest, least, meta, short) = remove_minimum(y, Ghost(mid), Ghost(hi));
                proof {
                    lemma_widen(n.left, lo, mid, lo, least as int);
                }
                n.key = least;
                n.meta = meta;
                n.right = rest;
                if short {
                    let (fixed, still) = delete_fixup_right(n, Ghost(lo), Ghost(hi));
                    (Some(fixed), still)
                } else {
                    (Some(n), false)
                }
            },
        }
    }
}

/// Takes `key` out of a subtree; the flag tells whether the rest is one black node short.
fn remove_node(
    t: Option<Box<Node>>,
    key: usize,
    Ghost(lo): Ghost<int>,
    Ghost(hi): Ghost<int>,
) -> (r: (Option<Box<Node>>, Option<BigAllocMeta>, bool))
    requires
        balanced(t),
        ordered(t, lo, hi),
    ensures
        balanced(r.0),
        height(r.0) + (if r.2 {
            1int
        } else {
            0int
        }) == height(t),
        r.2 ==> root_color(r.0) == Color::Black,
        root_color(t) == Color::Black ==> root_color(r.0) == Color::Black,
        ordered(r.0, lo, hi),
        r.1 == lookup(t, key),
        forall|k: usize| #[trigger]
            lookup(r.0, k) == if k == key {
                None
            } else {
                lookup(t, k)
            },
    decreases t,
{
    broadcast use lemma_lookup_step;

    proof {
        reveal_with_fuel(ordered, 2);
        reveal_with_fuel(balanced, 2);
        reveal_with_fuel(height, 2);
    }
    match t {
        None => (None, None, false),
        Some(mut n) => {
            let ghost mid = n.key as int;
            proof {
                lemma_outside(n.left, lo, mid);
                lemma_outside(n.right, mid, hi);
            }
            if key < n.key {
                let below = n.left.take();
                let (rest, found, short) = remove_node(below, key, Ghost(lo), Ghost(mid));
                n.left = rest;
                if short {
                    let (fixed, still) = delete_fixup_left(n, Ghost(lo), Ghost(hi));
                    (Some(fixed), found, still)
                } else {
                    (Some(n), found, false)
                }
            } else if key > n.key {
                let below = n.right.take();
                let (rest, found, short) = remove_node(below, key, Ghost(mid), Ghost(hi));
                n.right = rest;
                if short {
                    let (fixed, still) = delete_fixup_right(n, Ghost(lo), Ghost(hi));
                    (Some(fixed), found, still)
                } else {
                    (Some(n), found, false)
                }
            } else {
                let found = Some(n.meta);
                let (rest, short) = remove_root(n, Ghost(lo), Ghost(hi));
                (rest, found, short)
            }
        },
    }
}

/// The node that holds `key`.
fn find_node(t: &Option<Box<Node>>, key: usize) -> (r: Option<&Box<Node>>)
    ensures
        r is Some <==> lookup(*t, key) is Some,
        r matches Some(n) ==> n.key == key && lookup(*t, key) == Some(n.meta),
    decreases t,
{
    broadcast use lemma_lookup_step;

    match t {
        None => None,
        Some(n) => if key == n.key {
            Some(n)
        } else if key < n.key {
            find_node(&n.left, key)
        } else {
            find_node(&n.right, key)
        },
    }
}

/// Overwrites the metadata of `key` when it is there.
fn replace_node(t: Option<Box<Node>>, key: usize, meta: BigAllocMeta) -> (r: (
    Option<Box<Node>>,
    Option<BigAllocMeta>,
))
    ensures
        r.1 == lookup(t, key),
        balanced(r.0) == balanced(t),
        height(r.0) == height(t),
        root_color(r.0) == root_color(t),
        forall|lo: int, hi: int| #[trigger] ordered(r.0, lo, hi) == ordered(t, lo, hi),
        forall|k: usize| #[trigger]
            lookup(r.0, k) == if k == key && lookup(t, k) is Some {
                Some(meta)
            } else {
                lookup(t, k)
            },
    decreases t,
{
    broadcast use lemma_lookup_step;

    match t {
        None => (None, None),
        Some(mut n) => {
            let ghost before = n;
            let found;
            if key == n.key {
                found = Some(n.meta);
                n.meta = meta;
            } else if key < n.key {
                let (below, got) = replace_node(n.left.take(), key, meta);
                n.left = below;
                found = got;
            } else {
                let (below, got) = replace_node(n.right.take(), key, meta);
                n.right = below;
                found = got;
            }
            proof {
                assert forall|lo: int, hi: int| #[trigger]
                    ordered(Some(n), lo, hi) == ordered(Some(before), lo, hi) by {
                    assert(ordered(n.left, lo, n.key as int) == ordered(
                        before.left,
                        lo,
                        n.key as int,
                    ));
                    assert(ordered(n.right, n.key as int, hi) == ordered(
                        before.right,
                        n.key as int,
                        hi,
                    ));
                }
            }
            (Some(n), found)
        },
    }
}

/// A subtree is no higher than the room its bounds leave.
proof fn lemma_height_bound(t: Option<Box<Node>>, lo: int, hi: int)
    requires
        ordered(t, lo, hi),
        lo < hi,
    ensures
        height(t) <= hi - lo,
    decreases t,
{
    if let Some(n) = t {
        lemma_height_bound(n.left, lo, n.key as int);
    }
}

/// Counts the black nodes on the paths below `t`, or tells why they cannot be counted.
fn measure(t: &Option<Box<Node>>, Ghost(lo): Ghost<int>, Ghost(hi): Ghost<int>) -> (r: Result<
    usize,
    TreeDefect,
>)
    requires
        ordered(*t, lo, hi),
        -1 <= lo < hi <= usize::MAX + 1,
    ensures
        r is Ok <==> balanced(*t),
        r matches Ok(h) ==> h == height(*t),
    decreases t,
{
    match t {
        None => Ok(1),
        Some(n) => {
            if matches!(n.color, Color::Red) && (matches!(color_of(&n.left), Color::Red)
                || matches!(color_of(&n.right), Color::Red)) {
                return Err(TreeDefect::RedRedEdge);
            }
            let ghost mid = n.key as int;
            let left = measure(&n.left, Ghost(lo), Ghost(mid))?;
            let right = measure(&n.right, Ghost(mid), Ghost(hi))?;
            if left != right {
                return Err(TreeDefect::BlackHeightMismatch);
            }
            proof {
                lemma_height_bound(n.left, lo, mid);
                lemma_height_bound(n.right, mid, hi);
            }
            if matches!(n.color, Color::Black) {
                Ok(left + 1)
            } else {
                Ok(left)
            }
        },
    }
}

/// Map from addresses to metadata, kept in a red-black tree behind a lock.
pub struct RBTree {
    root: Option<Box<Node>>,
    lock: SpinLock<()>,
}

impl View for RBTree {
    type V = Map<usize, BigAllocMeta>;

    closed spec fn view(&self) -> Map<usize, BigAllocMeta> {
        Map::new(|k: usize| lookup(self.root, k) is Some, |k: usize| lookup(self.root, k)->0)
    }
}

impl RBTree {
    /// The keys are in search order and the coloring rules hold: the root is black, no red node
    /// has a red child, and all paths hold equally many black nodes.
    pub closed spec fn wf(&self) -> bool {
        &&& ordered(self.root, -1, usize::MAX + 1)
        &&& balanced(self.root)
        &&& root_color(self.root) == Color::Black
    }

    /// Whether the lock of the tree is held.
    pub closed spec fn locked(&self) -> bool {
        self.lock.locked()
    }

    /// Black nodes on any path from the root, the absent child at its end counting as one.
    pub closed spec fn spec_black_height(&self) -> nat {
        height(self.root)
    }

    pub fn new() -> (r: Self)
        ensures
            r.wf(),
            !r.locked(),
            r@ == Map::<usize, BigAllocMeta>::empty(),
    {
        RBTree { root: None, lock: SpinLock::new(()) }
    }

    /// Maps `key` to `meta`, whether or not it was mapped before.
    pub fn insert(&mut self, key: usize, meta: BigAllocMeta)
        requires
            old(self).wf(),
            !old(self).locked(),
        ensures
            final(self).wf(),
            !final(self).locked(),
            final(self)@ == old(self)@.insert(key, meta),
    {
        broadcast use lemma_lookup_step;

        let ghost wide: int = usize::MAX + 1;
        let mut top = insert_node(self.root.take(), key, meta, Ghost(-1), Ghost(wide));
        proof {
            lemma_colored(Some(top), Color::Black, -1, wide);
        }
        top.color = Color::Black;
        self.root = Some(top);
    }

    /// The metadata of `key`.
    pub fn get(&self, key: usize) -> (r: Option<BigAllocMeta>)
        requires
            self.wf(),
            !self.locked(),
        ensures
            r == (if self@.dom().contains(key) {
                Some(self@[key])
            } else {
                None
            }),
    {
        match find_node(&self.root, key) {
            None => None,
            Some(n) => Some(n.meta),
        }
    }

    /// Changes the metadata of `key` when it is mapped and gives back what it was.
    pub fn replace(&mut self, key: usize, meta: BigAllocMeta) -> (r: Option<BigAllocMeta>)
        requires
            old(self).wf(),
            !old(self).locked(),
        ensures
            final(self).wf(),
            !final(self).locked(),
            old(self)@.dom().contains(key) ==> r == Some(old(self)@[key]) && final(self)@ == old(self)@.insert(key, meta),
            !old(self)@.dom().contains(key) ==> r is None && final(self)@ == old(self)@,
    {
        let (root, found) = replace_node(self.root.take(), key, meta);
        self.root = root;
        found
    }

    /// Unmaps `key` and gives back what it was mapped to.
    pub fn remove(&mut self, key: usize) -> (r: Option<BigAllocMeta>)
        requires
            old(self).wf(),
            !old(self).locked(),
        ensures
            final(self).wf(),
            !final(self).locked(),
            final(self)@ == old(self)@.remove(key),
            r == (if old(self)@.dom().contains(key) {
                Some(old(self)@[key])
            } else {
                None
            }),
    {
        let ghost wide: int = usize::MAX + 1;
        let (root, found, _) = remove_node(self.root.take(), key, Ghost(-1), Ghost(wide));
        self.root = root;
        found
    }

    /// Takes the lock and keeps it across a fork.
    pub fn lock_for_fork(&mut self)
        requires
            !old(self).locked(),
        ensures
            final(self).locked(),
            final(self)@ == old(self)@,
            final(self).wf() == old(self).wf(),
    {
        self.lock.lock_for_fork();
    }

    /// Frees the lock after a fork.
    pub fn reset_lock_on_fork(&mut self)
        ensures
            !final(self).locked(),
            final(self)@ == old(self)@,
            final(self).wf() == old(self).wf(),
    {
        self.lock.reset_at_fork();
    }

    /// Walks the whole tree and counts the black nodes on its paths.
    pub fn black_height(&self) -> (r: Result<usize, TreeDefect>)
        requires
            self.wf(),
        ensures
            r matches Ok(h) && h == self.spec_black_height(),
    {
        if matches!(color_of(&self.root), Color::Red) {
            return Err(TreeDefect::RedRoot);
        }
        let ghost wide: int = usize::MAX + 1;
        measure(&self.root, Ghost(-1), Ghost(wide))
    }
}

} // verus!
