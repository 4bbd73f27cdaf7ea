//! What the traversal to a requested resolution returns, stated by the
//! post-order positions of cells.

use vstd::prelude::*;

use crate::cell::{
    cell_before, cell_of_rank, cells_at, digits_before, law_post_order_matches_comparison,
    law_post_interval_is_subtree, lemma_cell_of_own_rank, lemma_level_rank_bound,
    lemma_rank_round_trip, level_index, level_rank, post_index,
    predecessor_at_of, predecessor_of, repeat_digit, successor_at_of, successor_of, CellView,
};
use crate::compaction::{contains_view, lemma_descendant_interval, post_of, start_of};
use crate::face::face_index;
use crate::numbering::{digits_value, lemma_digits_value_bound, pow9, subtree_size, valid_digits};

verus! {

/// A number's first digit and the rest.
proof fn lemma_value_first(s: Seq<u8>)
    requires
        s.len() >= 1,
    ensures
        digits_value(s) == s[0] * pow9((s.len() - 1) as nat) + digits_value(s.drop_first()),
    decreases s.len(),
{
    if s.len() == 1 {
        assert(s.drop_last() =~= Seq::<u8>::empty());
        assert(s.drop_first() =~= Seq::<u8>::empty());
        assert(digits_value(Seq::<u8>::empty()) == 0);
        assert(s.last() == s[0]);
        assert(pow9(0) == 1);
        assert(digits_value(s) == digits_value(s.drop_last()) * 9 + s.last());
        assert(digits_value(s.drop_last()) == 0);
        assert(digits_value(s.drop_first()) == 0);
        assert(s[0] * pow9(0) == s[0]);
    } else {
        let p = s.drop_last();
        lemma_value_first(p);
        let n = (s.len() - 1) as nat;
        assert(pow9(n) == 9 * pow9((n - 1) as nat));
        assert(p[0] == s[0]);
        let t = s.drop_first();
        assert(t.drop_last() =~= p.drop_first());
        assert(t.last() == s.last());
        assert(digits_value(t) == digits_value(p.drop_first()) * 9 + t.last());
        assert(digits_value(s) == digits_value(p) * 9 + s.last());
        let a = s[0] as int;
        let q = pow9((n - 1) as nat) as int;
        let r = digits_value(p.drop_first()) as int;
        let l = s.last() as int;
        assert(digits_value(p) == a * q + r);
        assert(digits_value(s) == a * pow9(n) + digits_value(t)) by (nonlinear_arith)
            requires
                digits_value(s) == digits_value(p) * 9 + l,
                digits_value(p) == a * q + r,
                pow9(n) == 9 * q,
                digits_value(t) == r * 9 + l,
        ;
    }
}

/// Among digit strings of one length, the first difference orders them as
/// their values do.
proof fn lemma_digits_order(a: Seq<u8>, b: Seq<u8>)
    requires
        a.len() == b.len(),
        forall|i: int| 0 <= i < a.len() ==> #[trigger] a[i] < 9,
        forall|i: int| 0 <= i < b.len() ==> #[trigger] b[i] < 9,
    ensures
        digits_before(a, b) <==> digits_value(a) < digits_value(b),
        digits_value(a) == digits_value(b) ==> a == b,
    decreases a.len(),
{
    if a.len() == 0 {
        assert(a =~= b);
    } else {
        let a1 = a.drop_first();
        let b1 = b.drop_first();
        assert forall|i: int| 0 <= i < a1.len() implies #[trigger] a1[i] < 9 by {
            assert(a1[i] == a[i + 1]);
        }
        assert forall|i: int| 0 <= i < b1.len() implies #[trigger] b1[i] < 9 by {
            assert(b1[i] == b[i + 1]);
        }
        lemma_digits_order(a1, b1);
        lemma_value_first(a);
        lemma_value_first(b);
        lemma_digits_value_bound(a1);
        lemma_digits_value_bound(b1);
        let p = pow9((a.len() - 1) as nat) as int;
        let x = a[0] as int;
        let y = b[0] as int;
        let ra = digits_value(a1) as int;
        let rb = digits_value(b1) as int;
        if x < y {
            assert(x * p + ra < y * p + rb) by (nonlinear_arith)
                requires
                    x < y,
                    0 <= ra < p,
                    0 <= rb,
            ;
        } else if y < x {
            assert(y * p + rb < x * p + ra) by (nonlinear_arith)
                requires
                    y < x,
                    0 <= rb < p,
                    0 <= ra,
            ;
        } else {
            assert(a =~= seq![a[0]] + a1);
            assert(b =~= seq![b[0]] + b1);
        }
    }
}

/// Among cells of one resolution, post-order is the order of their ranks.
proof fn lemma_rank_order(a: CellView, b: CellView)
    requires
        valid_digits(a.1),
        valid_digits(b.1),
        a.1.len() == b.1.len(),
    ensures
        cell_before(a, b) <==> level_rank(a.0, a.1) < level_rank(b.0, b.1),
        level_rank(a.0, a.1) == level_rank(b.0, b.1) ==> a == b,
{
    lemma_digits_order(a.1, b.1);
    lemma_digits_value_bound(a.1);
    lemma_digits_value_bound(b.1);
    lemma_cell_of_own_rank(a.0, a.1);
    lemma_cell_of_own_rank(b.0, b.1);
    let p = pow9(a.1.len()) as int;
    let fa = face_index(a.0) as int;
    let fb = face_index(b.0) as int;
    let va = digits_value(a.1) as int;
    let vb = digits_value(b.1) as int;
    if fa < fb {
        assert(fa * p + va < fb * p + vb) by (nonlinear_arith)
            requires
                fa < fb,
                0 <= va < p,
                0 <= vb,
        ;
    } else if fb < fa {
        assert(fb * p + vb < fa * p + va) by (nonlinear_arith)
            requires
                fb < fa,
                0 <= vb < p,
                0 <= va,
        ;
    } else {
        assert(a.0 == b.0) by {
            crate::face::lemma_face_index_round_trip(a.0);
            crate::face::lemma_face_index_round_trip(b.0);
        }
    }
}

/// Where two strings begin with different prefixes of one length, those
/// prefixes decide their order.
proof fn lemma_digits_prefix_decides(x: Seq<u8>, y: Seq<u8>, a: Seq<u8>, b: Seq<u8>)
    requires
        a.is_prefix_of(x),
        b.is_prefix_of(y),
        a.len() == b.len(),
        a != b,
    ensures
        digits_before(x, y) == digits_before(a, b),
    decreases a.len(),
{
    if a.len() == 0 {
        assert(a =~= b);
    } else {
        assert(x[0] == a[0]);
        assert(y[0] == b[0]);
        if a[0] == b[0] {
            let a1 = a.drop_first();
            let b1 = b.drop_first();
            assert(a1 != b1) by {
                if a1 == b1 {
                    assert(a =~= seq![a[0]] + a1);
                    assert(b =~= seq![b[0]] + b1);
                }
            }
            assert(a1.is_prefix_of(x.drop_first()));
            assert(b1.is_prefix_of(y.drop_first()));
            lemma_digits_prefix_decides(x.drop_first(), y.drop_first(), a1, b1);
        }
    }
}

/// The cell-level form: different cells of one resolution order their
/// descendants as they are ordered themselves.
proof fn lemma_prefix_decides(x: CellView, y: CellView, a: CellView, b: CellView)
    requires
        a.0 == x.0,
        a.1.is_prefix_of(x.1),
        b.0 == y.0,
        b.1.is_prefix_of(y.1),
        a.1.len() == b.1.len(),
        a != b,
    ensures
        cell_before(x, y) == cell_before(a, b),
{
    if a.0 == b.0 {
        assert(a.1 != b.1);
        lemma_digits_prefix_decides(x.1, y.1, a.1, b.1);
    }
}

/// A proper descendant comes before its ancestor.
proof fn lemma_descendant_before(x: Seq<u8>, c: Seq<u8>)
    requires
        c.is_prefix_of(x),
        c.len() < x.len(),
    ensures
        digits_before(x, c),
    decreases c.len(),
{
    if c.len() > 0 {
        assert(x[0] == c[0]);
        assert(c.drop_first().is_prefix_of(x.drop_first()));
        lemma_descendant_before(x.drop_first(), c.drop_first());
    }
}

/// A common beginning does not change the order.
proof fn lemma_common_prefix(d: Seq<u8>, y: Seq<u8>, z: Seq<u8>)
    ensures
        digits_before(d + y, d + z) == digits_before(y, z),
    decreases d.len(),
{
    if d.len() > 0 {
        assert((d + y).drop_first() =~= d.drop_first() + y);
        assert((d + z).drop_first() =~= d.drop_first() + z);
        lemma_common_prefix(d.drop_first(), y, z);
    } else {
        assert(d + y =~= y);
        assert(d + z =~= z);
    }
}

/// Among strings of one length, all eights come last and all zeros first.
proof fn lemma_extremes(y: Seq<u8>)
    requires
        forall|i: int| 0 <= i < y.len() ==> #[trigger] y[i] < 9,
    ensures
        y != repeat_digit(8, y.len()) ==> digits_before(y, repeat_digit(8, y.len())),
        y != repeat_digit(0, y.len()) ==> digits_before(repeat_digit(0, y.len()), y),
    decreases y.len(),
{
    let n = y.len();
    if n > 0 {
        let y1 = y.drop_first();
        assert forall|i: int| 0 <= i < y1.len() implies #[trigger] y1[i] < 9 by {
            assert(y1[i] == y[i + 1]);
        }
        lemma_extremes(y1);
        assert(repeat_digit(8, n).drop_first() =~= repeat_digit(8, y1.len()));
        assert(repeat_digit(0, n).drop_first() =~= repeat_digit(0, y1.len()));
        if y[0] == 8 && y != repeat_digit(8, n) {
            assert(y1 != repeat_digit(8, y1.len())) by {
                if y1 == repeat_digit(8, y1.len()) {
                    assert(y =~= seq![y[0]] + y1);
                    assert(repeat_digit(8, n) =~= seq![8u8] + repeat_digit(8, y1.len()));
                }
            }
        }
        if y[0] == 0 && y != repeat_digit(0, n) {
            assert(y1 != repeat_digit(0, y1.len())) by {
                if y1 == repeat_digit(0, y1.len()) {
                    assert(y =~= seq![y[0]] + y1);
                    assert(repeat_digit(0, n) =~= seq![0u8] + repeat_digit(0, y1.len()));
                }
            }
        }
    } else {
        assert(y =~= repeat_digit(8, 0));
        assert(y =~= repeat_digit(0, 0));
    }
}


/// The first `n` digits of a valid cell form a valid cell.
proof fn lemma_take_valid(x: CellView, n: nat)
    requires
        valid_digits(x.1),
        n <= x.1.len(),
    ensures
        valid_digits(x.1.take(n as int)),
        x.1.take(n as int).len() == n,
        x.1.take(n as int).is_prefix_of(x.1),
        x.1 == x.1.take(n as int) + x.1.skip(n as int),
        forall|i: int| 0 <= i < x.1.skip(n as int).len() ==> #[trigger] x.1.skip(n as int)[i] < 9,
{
    assert(x.1 =~= x.1.take(n as int) + x.1.skip(n as int));
    assert forall|i: int| 0 <= i < x.1.take(n as int).len() implies #[trigger] x.1.take(n as int)[i]
        < 9 by {
        assert(x.1.take(n as int)[i] == x.1[i]);
    }
    assert forall|i: int| 0 <= i < x.1.skip(n as int).len() implies #[trigger] x.1.skip(n as int)[i]
        < 9 by {
        assert(x.1.skip(n as int)[i] == x.1[n + i]);
    }
    assert(x.1.take(n as int) =~= x.1.subrange(0, n as int));
}

/// Valid digits followed by a repeated digit below nine.
proof fn lemma_extend_valid(d: Seq<u8>, digit: u8, m: nat)
    requires
        valid_digits(d),
        digit < 9,
        d.len() + m <= 15,
    ensures
        valid_digits(d + repeat_digit(digit, m)),
        (d + repeat_digit(digit, m)).take(d.len() as int) == d,
        d.is_prefix_of(d + repeat_digit(digit, m)),
        (d + repeat_digit(digit, m)).skip(d.len() as int) == repeat_digit(digit, m),
{
    let e = d + repeat_digit(digit, m);
    assert forall|i: int| 0 <= i < e.len() implies #[trigger] e[i] < 9 by {
        if i < d.len() {
            assert(e[i] == d[i]);
        }
    }
    assert(e.take(d.len() as int) =~= d);
    assert(e.subrange(0, d.len() as int) =~= d);
    assert(e.skip(d.len() as int) =~= repeat_digit(digit, m));
}

/// Post-order is a strict order on valid cells.
proof fn lemma_before_strict(a: CellView, b: CellView)
    requires
        valid_digits(a.1),
        valid_digits(b.1),
    ensures
        !(cell_before(a, b) && cell_before(b, a)),
        !cell_before(a, a),
{
    law_post_order_matches_comparison(a, b);
    law_post_order_matches_comparison(b, a);
    law_post_order_matches_comparison(a, a);
}

/// Against a coarser cell `a` that begins `c`, a cell of `a`'s resolution
/// comes before `c` exactly when it comes before `a` in rank.
proof fn lemma_before_truncation(c: CellView, r: nat, x: CellView)
    requires
        valid_digits(c.1),
        r <= c.1.len(),
        valid_digits(x.1),
        x.1.len() == r,
    ensures
        cell_before(x, c) <==> level_rank(x.0, x.1) < level_rank(c.0, c.1.take(r as int)),
        cell_before(c, x) && x != (c.0, c.1.take(r as int)) <==> level_rank(c.0, c.1.take(r as int))
            < level_rank(x.0, x.1),
{
    lemma_take_valid(c, r);
    let a = (c.0, c.1.take(r as int));
    lemma_rank_order(x, a);
    lemma_rank_order(a, x);
    if x == a {
        if r == c.1.len() {
            assert(c.1.take(r as int) =~= c.1);
            lemma_before_strict(c, c);
        } else {
            lemma_descendant_before(c.1, a.1);
            lemma_before_strict(c, a);
        }
    } else {
        lemma_prefix_decides(x, c, x, a);
        lemma_prefix_decides(c, x, a, x);
        assert(x.1.is_prefix_of(x.1));
    }
}

/// The predecessor at a resolution is the greatest cell of that resolution
/// that comes before the cell in post-order, and there is none exactly
/// where no cell of that resolution comes before it. At the cell's own
/// resolution it is the previous cell in level order.
pub proof fn law_predecessor_at_is_greatest_before(c: CellView, resolution: nat)
    requires
        valid_digits(c.1),
        resolution <= 15,
    ensures
        predecessor_at_of(c.0, c.1, resolution) matches Some(p) ==> {
            &&& valid_digits(p.1)
            &&& p.1.len() == resolution
            &&& post_index(p.0, p.1) < post_index(c.0, c.1)
            &&& forall|x: CellView|
                valid_digits(x.1) && x.1.len() == resolution && #[trigger] post_index(x.0, x.1)
                    < post_index(c.0, c.1) ==> post_index(x.0, x.1) <= post_index(p.0, p.1)
        },
        predecessor_at_of(c.0, c.1, resolution) is None ==> forall|x: CellView|
            valid_digits(x.1) && x.1.len() == resolution ==> post_index(c.0, c.1)
                <= #[trigger] post_index(x.0, x.1),
        resolution == c.1.len() ==> predecessor_at_of(c.0, c.1, resolution) == predecessor_of(
            c.0,
            c.1,
        ),
        resolution == c.1.len() ==> (predecessor_at_of(c.0, c.1, resolution) matches Some(p)
            ==> level_index(p.0, p.1) + 1 == level_index(c.0, c.1)),
{
    let n = c.1.len();
    let r = resolution;
    if r <= n {
        lemma_take_valid(c, r);
        let a = (c.0, c.1.take(r as int));
        if r == n {
            assert(c.1.take(r as int) =~= c.1);
        }
        assert(predecessor_at_of(c.0, c.1, r) == predecessor_of(a.0, a.1));
        let k = level_rank(a.0, a.1);
        lemma_level_rank_bound(a.0, a.1);
        if k > 0 {
            lemma_rank_round_trip(r, (k - 1) as nat);
            let p = cell_of_rank(r, (k - 1) as nat);
            lemma_before_truncation(c, r, p);
            law_post_order_matches_comparison(p, c);
            assert forall|x: CellView|
                valid_digits(x.1) && x.1.len() == r && #[trigger] post_index(x.0, x.1) < post_index(
                    c.0,
                    c.1,
                ) implies post_index(x.0, x.1) <= post_index(p.0, p.1) by {
                law_post_order_matches_comparison(x, c);
                lemma_before_truncation(c, r, x);
                lemma_rank_order(x, p);
                law_post_order_matches_comparison(x, p);
            }
        } else {
            assert forall|x: CellView| valid_digits(x.1) && x.1.len() == r implies post_index(c.0, c.1)
                <= #[trigger] post_index(x.0, x.1) by {
                law_post_order_matches_comparison(x, c);
                lemma_before_truncation(c, r, x);
            }
        }
    } else {
        let m = (r - n) as nat;
        let p = (c.0, c.1 + repeat_digit(8, m));
        lemma_extend_valid(c.1, 8, m);
        lemma_descendant_before(p.1, c.1);
        law_post_order_matches_comparison(p, c);
        assert forall|x: CellView|
            valid_digits(x.1) && x.1.len() == r && #[trigger] post_index(x.0, x.1) < post_index(
                c.0,
                c.1,
            ) implies post_index(x.0, x.1) <= post_index(p.0, p.1) by {
            law_post_order_matches_comparison(x, c);
            law_post_order_matches_comparison(x, p);
            lemma_take_valid(x, n);
            let b = (x.0, x.1.take(n as int));
            if b == c {
                let y = x.1.skip(n as int);
                lemma_extremes(y);
                if y != repeat_digit(8, m) {
                    lemma_common_prefix(c.1, y, repeat_digit(8, m));
                } else {
                    assert(x == p);
                }
            } else {
                assert(c.1.is_prefix_of(c.1));
                lemma_prefix_decides(x, c, b, c);
                lemma_prefix_decides(x, p, b, c);
            }
        }
    }
    if r == n {
        let k = level_rank(c.0, c.1);
        lemma_level_rank_bound(c.0, c.1);
        if k > 0 {
            lemma_rank_round_trip(r, (k - 1) as nat);
        }
    }
}


/// A cell `x` lies wholly after `c` in post-order, its whole subtree after
/// `c`, exactly when it neither contains `c` nor comes before it.
proof fn lemma_wholly_after(c: CellView, x: CellView)
    requires
        valid_digits(c.1),
        valid_digits(x.1),
    ensures
        post_index(c.0, c.1) + subtree_size(x.1.len()) <= post_index(x.0, x.1) <==> (!(x.0 == c.0
            && x.1.is_prefix_of(c.1)) && cell_before(c, x)),
{
    law_post_order_matches_comparison(c, x);
    assert(subtree_size(x.1.len()) >= 1) by {
        crate::numbering::lemma_subtree_size_values();
        crate::numbering::lemma_subtree_size_monotone(x.1.len());
    }
    if x.0 == c.0 && x.1.is_prefix_of(c.1) {
        if x.1.len() < c.1.len() {
            lemma_descendant_interval(x, c);
        } else {
            assert(x.1 =~= c.1);
        }
    } else if post_index(c.0, c.1) < post_index(x.0, x.1) && post_index(x.0, x.1) < post_index(
        c.0,
        c.1,
    ) + subtree_size(x.1.len()) {
        law_post_interval_is_subtree(x, c);
    }
}

/// The successor at a resolution is the least cell of that resolution that
/// lies wholly after the cell in post-order (neither containing it nor
/// before it), and there is none exactly where no cell of that resolution
/// does. At the cell's own resolution it is the next cell in level order.
pub proof fn law_successor_at_is_least_after(c: CellView, resolution: nat)
    requires
        valid_digits(c.1),
        resolution <= 15,
    ensures
        successor_at_of(c.0, c.1, resolution) matches Some(s) ==> {
            &&& valid_digits(s.1)
            &&& s.1.len() == resolution
            &&& post_index(c.0, c.1) + subtree_size(resolution) <= post_index(s.0, s.1)
            &&& forall|x: CellView|
                valid_digits(x.1) && x.1.len() == resolution && post_index(c.0, c.1)
                    + subtree_size(resolution) <= #[trigger] post_index(x.0, x.1) ==> post_index(
                    s.0,
                    s.1,
                ) <= post_index(x.0, x.1)
        },
        successor_at_of(c.0, c.1, resolution) is None ==> forall|x: CellView|
            valid_digits(x.1) && x.1.len() == resolution ==> #[trigger] post_index(x.0, x.1)
                < post_index(c.0, c.1) + subtree_size(resolution),
        resolution == c.1.len() ==> successor_at_of(c.0, c.1, resolution) == successor_of(
            c.0,
            c.1,
        ),
        resolution == c.1.len() ==> (successor_at_of(c.0, c.1, resolution) matches Some(s)
            ==> level_index(s.0, s.1) == level_index(c.0, c.1) + 1),
{
    let n = c.1.len();
    let r = resolution;
    if r <= n {
        lemma_take_valid(c, r);
        let a = (c.0, c.1.take(r as int));
        if r == n {
            assert(c.1.take(r as int) =~= c.1);
            match successor_of(c.0, c.1) {
                Some(next) => {
                    assert(c.1 + repeat_digit(0, 0) =~= c.1);
                },
                None => {},
            }
        }
        assert(successor_at_of(c.0, c.1, r) == successor_of(a.0, a.1));
        let k = level_rank(a.0, a.1);
        lemma_level_rank_bound(a.0, a.1);
        if k + 1 < crate::cell::cells_at(r) {
            lemma_rank_round_trip(r, k + 1);
            let s = cell_of_rank(r, k + 1);
            lemma_before_truncation(c, r, s);
            lemma_wholly_after(c, s);
            assert forall|x: CellView|
                valid_digits(x.1) && x.1.len() == r && post_index(c.0, c.1) + subtree_size(r)
                    <= #[trigger] post_index(x.0, x.1) implies post_index(s.0, s.1) <= post_index(
                x.0,
                x.1,
            ) by {
                lemma_wholly_after(c, x);
                lemma_before_truncation(c, r, x);
                assert(x != a) by {
                    if x == a {
                        assert(x.1.is_prefix_of(c.1));
                    }
                }
                lemma_rank_order(s, x);
                law_post_order_matches_comparison(s, x);
            }
        } else {
            assert forall|x: CellView| valid_digits(x.1) && x.1.len() == r implies #[trigger] post_index(
                x.0,
                x.1,
            ) < post_index(c.0, c.1) + subtree_size(r) by {
                lemma_wholly_after(c, x);
                lemma_before_truncation(c, r, x);
                lemma_level_rank_bound(x.0, x.1);
                if x == a {
                    assert(x.1.is_prefix_of(c.1));
                }
            }
        }
    } else {
        let m = (r - n) as nat;
        let k = level_rank(c.0, c.1);
        lemma_level_rank_bound(c.0, c.1);
        // A cell of the finer resolution lies wholly after `c` exactly when
        // the cell of `c`'s resolution that begins it comes after `c`.
        assert forall|x: CellView| valid_digits(x.1) && x.1.len() == r implies (post_index(c.0, c.1)
            + subtree_size(r) <= #[trigger] post_index(x.0, x.1) <==> k < level_rank(
            x.0,
            x.1.take(n as int),
        )) by {
            lemma_wholly_after(c, x);
            lemma_take_valid(x, n);
            let b = (x.0, x.1.take(n as int));
            lemma_rank_order(c, b);
            assert(!x.1.is_prefix_of(c.1));
            if b == c {
                lemma_descendant_before(x.1, c.1);
                lemma_before_strict(c, x);
            } else {
                assert(c.1.is_prefix_of(c.1));
                lemma_prefix_decides(c, x, c, b);
            }
        }
        if k + 1 < crate::cell::cells_at(n) {
            lemma_rank_round_trip(n, k + 1);
            let next = cell_of_rank(n, k + 1);
            let s = (next.0, next.1 + repeat_digit(0, m));
            lemma_extend_valid(next.1, 0, m);
            assert(successor_at_of(c.0, c.1, r) == Some(s));
            assert(s.1.take(n as int) == next.1);
            assert forall|x: CellView|
                valid_digits(x.1) && x.1.len() == r && post_index(c.0, c.1) + subtree_size(r)
                    <= #[trigger] post_index(x.0, x.1) implies post_index(s.0, s.1) <= post_index(
                x.0,
                x.1,
            ) by {
                lemma_take_valid(x, n);
                let b = (x.0, x.1.take(n as int));
                law_post_order_matches_comparison(s, x);
                lemma_rank_order(next, b);
                if b == next {
                    let y = x.1.skip(n as int);
                    lemma_extremes(y);
                    if y != repeat_digit(0, m) {
                        lemma_common_prefix(next.1, repeat_digit(0, m), y);
                    } else {
                        assert(x == s);
                    }
                } else {
                    lemma_prefix_decides(s, x, next, b);
                }
            }
        } else {
            assert forall|x: CellView| valid_digits(x.1) && x.1.len() == r implies #[trigger] post_index(
                x.0,
                x.1,
            ) < post_index(c.0, c.1) + subtree_size(r) by {
                lemma_take_valid(x, n);
                lemma_level_rank_bound(x.0, x.1.take(n as int));
            }
        }
    }
    if r == n {
        let k = level_rank(c.0, c.1);
        lemma_level_rank_bound(c.0, c.1);
        if k + 1 < crate::cell::cells_at(r) {
            lemma_rank_round_trip(r, k + 1);
        }
    }
}

} // verus!
