//! Cyclic shifts of arrays along their first two axes.

use crate::field::{Field, Plane, VectorField};
use vstd::prelude::*;

verus! {

/// Where the entry at `i` of a cyclic axis of `n` comes from when the axis moves by `d`.
pub open spec fn source(n: int, d: int, i: int) -> int {
    (i - d) % n
}

/// A movement brought into the range of a cyclic axis.
fn wrap(n: usize, d: i32) -> (r: usize)
    requires
        n > 0,
    ensures
        r == d as int % n as int,
        r < n,
{
    if d >= 0 {
        (d as usize) % n
    } else {
        let e: usize = (-(d as i64)) as usize;
        let m: usize = e % n;
        proof {
            let q = e as int / n as int;
            vstd::arithmetic::div_mod::lemma_fundamental_div_mod(e as int, n as int);
            if m == 0 {
                assert(d == (-q) * n + 0) by (nonlinear_arith)
                    requires
                        d == -(e as int),
                        e == n * q + m,
                        m == 0,
                ;
                vstd::arithmetic::div_mod::lemma_fundamental_div_mod_converse(
                    d as int,
                    n as int,
                    -q,
                    0,
                );
            } else {
                assert(d == (-q - 1) * n + (n - m)) by (nonlinear_arith)
                    requires
                        d == -(e as int),
                        e == n * q + m,
                ;
                vstd::arithmetic::div_mod::lemma_fundamental_div_mod_converse(
                    d as int,
                    n as int,
                    -q - 1,
                    n - m,
                );
            }
        }
        if m == 0 {
            0
        } else {
            n - m
        }
    }
}

/// Where an entry comes from, for a movement in the range of the axis.
fn source_index(n: usize, d: usize, i: usize) -> (r: usize)
    requires
        d <= n,
        i < n,
    ensures
        r == source(n as int, d as int, i as int),
        r < n,
{
    if i >= d {
        proof {
            vstd::arithmetic::div_mod::lemma_small_mod((i - d) as nat, n as nat);
        }
        i - d
    } else {
        proof {
            vstd::arithmetic::div_mod::lemma_fundamental_div_mod_converse(
                i - d,
                n as int,
                -1,
                n - (d - i),
            );
        }
        n - (d - i)
    }
}

/// Movements that differ by whole turns come from the same place.
proof fn lemma_source_wrap(n: int, d: int, i: int)
    requires
        n > 0,
    ensures
        source(n, d % n, i) == source(n, d, i),
        0 <= source(n, d, i) < n,
{
    vstd::arithmetic::div_mod::lemma_sub_mod_noop_right(i, d, n);
    vstd::arithmetic::div_mod::lemma_mod_bound(i - d, n);
}

/// A movement and its reverse lead back.
pub proof fn lemma_source_back(n: int, d: int, e: int, i: int)
    requires
        n > 0,
        0 <= i < n,
        (d + e) % n == 0,
    ensures
        source(n, d, source(n, e, i)) == i,
        0 <= source(n, e, i) < n,
{
    vstd::arithmetic::div_mod::lemma_mod_bound(i - e, n);
    vstd::arithmetic::div_mod::lemma_add_mod_noop_right(-d, i - e, n);
    let k = d + e;
    assert((i - e) - d == i - k);
    vstd::arithmetic::div_mod::lemma_sub_mod_noop_right(i, k, n);
    vstd::arithmetic::div_mod::lemma_small_mod(i as nat, n as nat);
}

/// The plane moved by `di` rows and `dj` columns.
pub open spec fn plane_moved<T>(out: &Plane<T>, arr: &Plane<T>, di: int, dj: int) -> bool {
    &&& out.wf()
    &&& out.rows == arr.rows
    &&& out.cols == arr.cols
    &&& forall|i: int, j: int|
        out.has(i, j) ==> #[trigger] out.at(i, j) == arr.at(
            source(arr.rows as int, di, i),
            source(arr.cols as int, dj, j),
        )
}

/// The field moved by `di` rows and `dj` columns.
pub open spec fn field_moved<T>(out: &Field<T>, arr: &Field<T>, di: int, dj: int) -> bool {
    &&& out.of(arr.rows as int, arr.cols as int, arr.depth as int)
    &&& forall|i: int, j: int, k: int|
        out.has(i, j, k) ==> #[trigger] out.at(i, j, k) == arr.at(
            source(arr.rows as int, di, i),
            source(arr.cols as int, dj, j),
            k,
        )
}

/// The vector field moved by `di` rows and `dj` columns.
pub open spec fn vectors_moved<T>(
    out: &VectorField<T>,
    arr: &VectorField<T>,
    di: int,
    dj: int,
) -> bool {
    &&& out.of(arr.rows as int, arr.cols as int, arr.width as int, arr.depth as int)
    &&& forall|i: int, j: int, a: int, k: int|
        out.has(i, j, a, k) ==> #[trigger] out.at(i, j, a, k) == arr.at(
            source(arr.rows as int, di, i),
            source(arr.cols as int, dj, j),
            a,
            k,
        )
}

/// Moves a plane by no more than its extent.
fn move_plane<T: Copy>(arr: &Plane<T>, di: usize, dj: usize) -> (out: Plane<T>)
    requires
        arr.wf(),
        di <= arr.rows,
        dj <= arr.cols,
    ensures
        plane_moved(&out, arr, di as int, dj as int),
{
    let f = |i: usize, j: usize| -> (x: T)
        requires
            arr.has(i as int, j as int),
        ensures
            x == arr.at(
                source(arr.rows as int, di as int, i as int),
                source(arr.cols as int, dj as int, j as int),
            ),
        { arr.get(source_index(arr.rows, di, i), source_index(arr.cols, dj, j)) };
    Plane::from(arr.rows, arr.cols, f)
}

/// Moves a field by no more than its extent.
fn move_field<T: Copy>(arr: &Field<T>, di: usize, dj: usize) -> (out: Field<T>)
    requires
        arr.wf(),
        di <= arr.rows,
        dj <= arr.cols,
    ensures
        field_moved(&out, arr, di as int, dj as int),
{
    let f = |i: usize, j: usize, k: usize| -> (x: T)
        requires
            arr.has(i as int, j as int, k as int),
        ensures
            x == arr.at(
                source(arr.rows as int, di as int, i as int),
                source(arr.cols as int, dj as int, j as int),
                k as int,
            ),
        { arr.get(source_index(arr.rows, di, i), source_index(arr.cols, dj, j), k) };
    Field::from(arr.rows, arr.cols, arr.depth, f)
}

/// Moves the zero frequency of a plane to its middle.
pub fn fftshift_2d<T: Copy>(arr: &Plane<T>) -> (out: Plane<T>)
    requires
        arr.wf(),
    ensures
        plane_moved(&out, arr, (arr.rows / 2) as int, (arr.cols / 2) as int),
{
    move_plane(arr, arr.rows / 2, arr.cols / 2)
}

/// Moves the middle of a plane to its origin.
pub fn ifftshift_2d<T: Copy>(arr: &Plane<T>) -> (out: Plane<T>)
    requires
        arr.wf(),
    ensures
        plane_moved(&out, arr, (arr.rows + 1) / 2, (arr.cols + 1) / 2),
{
    move_plane(arr, arr.rows - arr.rows / 2, arr.cols - arr.cols / 2)
}

/// Moves the zero frequency of every channel to the middle.
pub fn fftshift_3d<T: Copy>(arr: &Field<T>) -> (out: Field<T>)
    requires
        arr.wf(),
    ensures
        field_moved(&out, arr, (arr.rows / 2) as int, (arr.cols / 2) as int),
{
    move_field(arr, arr.rows / 2, arr.cols / 2)
}

/// Rolls a field along its first two axes.
pub fn roll_3d_axes01<T: Copy>(arr: &Field<T>, dx: i32, dy: i32) -> (out: Field<T>)
    requires
        arr.wf(),
    ensures
        field_moved(&out, arr, dx as int, dy as int),
{
    if arr.rows == 0 || arr.cols == 0 {
        arr.copy()
    } else {
        let di: usize = wrap(arr.rows, dx);
        let dj: usize = wrap(arr.cols, dy);
        let out = move_field(arr, di, dj);
        proof {
            assert forall|i: int, j: int, k: int| out.has(i, j, k) implies #[trigger] out.at(i, j, k)
                == arr.at(
                source(arr.rows as int, dx as int, i),
                source(arr.cols as int, dy as int, j),
                k,
            ) by {
                lemma_source_wrap(arr.rows as int, dx as int, i);
                lemma_source_wrap(arr.cols as int, dy as int, j);
            }
        }
        out
    }
}

/// Rolls a vector field along its first two axes.
pub fn roll_4d_axes01<T: Copy>(arr: &VectorField<T>, dx: i32, dy: i32) -> (out: VectorField<T>)
    requires
        arr.wf(),
    ensures
        vectors_moved(&out, arr, dx as int, dy as int),
{
    let empty: bool = arr.rows == 0 || arr.cols == 0;
    let di: usize = if empty {
        0
    } else {
        wrap(arr.rows, dx)
    };
    let dj: usize = if empty {
        0
    } else {
        wrap(arr.cols, dy)
    };
    let f = |i: usize, j: usize, a: usize, k: usize| -> (x: T)
        requires
            arr.has(i as int, j as int, a as int, k as int),
        ensures
            x == arr.at(
                source(arr.rows as int, dx as int, i as int),
                source(arr.cols as int, dy as int, j as int),
                a as int,
                k as int,
            ),
        {
            proof {
                lemma_source_wrap(arr.rows as int, dx as int, i as int);
                lemma_source_wrap(arr.cols as int, dy as int, j as int);
            }
            arr.get(source_index(arr.rows, di, i), source_index(arr.cols, dj, j), a, k)
        };
    VectorField::from(arr.rows, arr.cols, arr.width, arr.depth, f)
}

/// Moving the zero frequency to the middle and the middle back to the origin leaves a
/// plane as it was.
pub proof fn law_ifftshift_undoes_fftshift<T>(a: &Plane<T>, b: &Plane<T>, c: &Plane<T>, i: int, j: int)
    requires
        a.wf(),
        plane_moved(b, a, (a.rows / 2) as int, (a.cols / 2) as int),
        plane_moved(c, b, (b.rows + 1) / 2, (b.cols + 1) / 2),
        a.has(i, j),
    ensures
        c.has(i, j),
        c.at(i, j) == a.at(i, j),
{
    let n = a.rows as int;
    let m = a.cols as int;
    let ni = source(n, (n + 1) / 2, i);
    let nj = source(m, (m + 1) / 2, j);
    assert(n / 2 + (n + 1) / 2 == n && m / 2 + (m + 1) / 2 == m);
    vstd::arithmetic::div_mod::lemma_mod_self_0(n);
    vstd::arithmetic::div_mod::lemma_mod_self_0(m);
    lemma_source_back(n, n / 2, (n + 1) / 2, i);
    lemma_source_back(m, m / 2, (m + 1) / 2, j);
    assert(b.has(ni, nj));
}

/// Rolling a field one way and then the other way leaves it as it was.
pub proof fn law_roll_undoes_roll<T>(
    a: &Field<T>,
    b: &Field<T>,
    c: &Field<T>,
    dx: int,
    dy: int,
    i: int,
    j: int,
    k: int,
)
    requires
        a.wf(),
        field_moved(b, a, dx, dy),
        field_moved(c, b, -dx, -dy),
        a.has(i, j, k),
    ensures
        c.has(i, j, k),
        c.at(i, j, k) == a.at(i, j, k),
{
    let n = a.rows as int;
    let m = a.cols as int;
    vstd::arithmetic::div_mod::lemma_small_mod(0, n as nat);
    vstd::arithmetic::div_mod::lemma_small_mod(0, m as nat);
    lemma_source_back(n, dx, -dx, i);
    lemma_source_back(m, dy, -dy, j);
    assert(b.has(source(n, -dx, i), source(m, -dy, j), k));
}

/// Where a moved entry is found.
proof fn lemma_moved_to(n: int, d: int, i: int)
    requires
        0 <= i < n,
    ensures
        0 <= (i + d) % n < n,
        source(n, d, (i + d) % n) == i,
{
    vstd::arithmetic::div_mod::lemma_mod_bound(i + d, n);
    vstd::arithmetic::div_mod::lemma_sub_mod_noop(i + d, d, n);
    vstd::arithmetic::div_mod::lemma_sub_mod_noop((i + d) % n, d, n);
    vstd::arithmetic::div_mod::lemma_small_mod(((i + d) % n) as nat, n as nat);
    vstd::arithmetic::div_mod::lemma_small_mod(i as nat, n as nat);
}

/// Shifting moves every entry down and to the right by half the extent, rounded down, around the
/// edges, so that the origin comes to the middle; shifting back moves it by the other half.
pub proof fn law_shifts_move_by_half<T: Copy>(
    arr: &Plane<T>,
    out: Plane<T>,
    back: Plane<T>,
    i: int,
    j: int,
)
    requires
        arr.wf(),
        call_ensures(fftshift_2d::<T>, (arr,), out),
        call_ensures(ifftshift_2d::<T>, (arr,), back),
        arr.has(i, j),
    ensures
        ({
            let h = arr.rows as int;
            let w = arr.cols as int;
            &&& out.at((i + h / 2) % h, (j + w / 2) % w) == arr.at(i, j)
            &&& back.at((i + (h - h / 2)) % h, (j + (w - w / 2)) % w) == arr.at(i, j)
        }),
{
    let h = arr.rows as int;
    let w = arr.cols as int;
    lemma_moved_to(h, h / 2, i);
    lemma_moved_to(w, w / 2, j);
    lemma_moved_to(h, (h + 1) / 2, i);
    lemma_moved_to(w, (w + 1) / 2, j);
    assert(h - h / 2 == (h + 1) / 2 && w - w / 2 == (w + 1) / 2);
    assert(out.has((i + h / 2) % h, (j + w / 2) % w));
    assert(back.has((i + (h + 1) / 2) % h, (j + (w + 1) / 2) % w));
}

/// Shifting a field moves every channel by half the extent, and rolling moves entries down by the
/// first amount and to the right by the second, around the edges; channels and components stay
/// where they are.
pub proof fn law_rolls_move_down_and_right<T: Copy>(
    arr: &Field<T>,
    shifted: Field<T>,
    dx: i32,
    dy: i32,
    rolled: Field<T>,
    vec: &VectorField<T>,
    turned: VectorField<T>,
    i: int,
    j: int,
    a: int,
    k: int,
)
    requires
        arr.wf(),
        vec.wf(),
        vec.rows == arr.rows,
        vec.cols == arr.cols,
        call_ensures(fftshift_3d::<T>, (arr,), shifted),
        call_ensures(roll_3d_axes01::<T>, (arr, dx, dy), rolled),
        call_ensures(roll_4d_axes01::<T>, (vec, dx, dy), turned),
        arr.has(i, j, k),
        vec.has(i, j, a, k),
    ensures
        ({
            let h = arr.rows as int;
            let w = arr.cols as int;
            let p = (i + dx) % h;
            let q = (j + dy) % w;
            &&& shifted.at((i + h / 2) % h, (j + w / 2) % w, k) == arr.at(i, j, k)
            &&& rolled.at(p, q, k) == arr.at(i, j, k)
            &&& turned.at(p, q, a, k) == vec.at(i, j, a, k)
        }),
{
    let h = arr.rows as int;
    let w = arr.cols as int;
    lemma_moved_to(h, h / 2, i);
    lemma_moved_to(w, w / 2, j);
    lemma_moved_to(h, dx as int, i);
    lemma_moved_to(w, dy as int, j);
    assert(shifted.has((i + h / 2) % h, (j + w / 2) % w, k));
    assert(rolled.has((i + dx) % h, (j + dy) % w, k));
    assert(turned.has((i + dx) % h, (j + dy) % w, a, k));
}

} // verus!
