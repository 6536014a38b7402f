//! Sorting by a strict total order, given as an executable comparison
//! together with the spec order it decides.

use vstd::prelude::*;

verus! {

/// Each element of `s` comes strictly before every later one.
pub open spec fn strictly_sorted<T>(s: Seq<T>, before: spec_fn(T, T) -> bool) -> bool {
    forall|i: int, j: int| 0 <= i < j < s.len() ==> before(#[trigger] s[i], #[trigger] s[j])
}

/// `before` is transitive.
pub open spec fn transitive<T>(before: spec_fn(T, T) -> bool) -> bool {
    forall|a: T, b: T, c: T| #[trigger] before(a, b) && #[trigger] before(b, c) ==> before(a, c)
}

/// Any two elements at different positions of `s` are ordered one way or the other.
pub open spec fn total_on<T>(s: Seq<T>, before: spec_fn(T, T) -> bool) -> bool {
    forall|i: int, j: int|
        0 <= i < s.len() && 0 <= j < s.len() && i != j ==> before(#[trigger] s[i], #[trigger] s[j])
            || before(s[j], s[i])
}

/// `less` decides `before`.
pub open spec fn decides<T, F: Fn(&T, &T) -> bool>(less: &F, before: spec_fn(T, T) -> bool) -> bool {
    &&& forall|a: &T, b: &T| #[trigger] less.requires((a, b))
    &&& forall|a: &T, b: &T, x: bool| #[trigger] less.ensures((a, b), x) ==> x == before(*a, *b)
}

/// Rearranges `v` into the strictly increasing order `before`, which `less` decides.
pub fn sort_strict<T, F: Fn(&T, &T) -> bool>(
    v: Vec<T>,
    less: &F,
    Ghost(before): Ghost<spec_fn(T, T) -> bool>,
) -> (r: Vec<T>)
    requires
        decides(less, before),
        transitive(before),
        total_on(v@, before),
    ensures
        r.len() == v.len(),
        strictly_sorted(r@, before),
        forall|x: T| r@.contains(x) <==> v@.contains(x),
{
    let ghost v0 = v@;
    let mut rest = v;
    let mut out: Vec<T> = Vec::new();
    while rest.len() > 0
        invariant
            decides(less, before),
            transitive(before),
            total_on(v0, before),
            rest@ == v0.subrange(0, rest.len() as int),
            rest.len() + out.len() == v0.len(),
            strictly_sorted(out@, before),
            forall|x: T| out@.contains(x) <==> v0.subrange(rest.len() as int, v0.len() as int).contains(x),
        decreases rest.len(),
    {
        let ghost n = rest.len() as int;
        let x = match rest.pop() {
            Some(x) => x,
            None => { return out; },
        };
        assert(x == v0[n - 1]);
        let ghost tail = v0.subrange(n, v0.len() as int);
        let ghost tail1 = v0.subrange(n - 1, v0.len() as int);
        assert forall|j: int| 0 <= j < out.len() implies before(x, #[trigger] out@[j]) || before(out@[j], x) by {
            assert(out@.contains(out@[j]));
            let k = choose|k: int| 0 <= k < tail.len() && tail[k] == out@[j];
            assert(v0[n + k] == out@[j]);
        }
        let mut pos: usize = 0;
        while pos < out.len()
            invariant
                decides(less, before),
                pos <= out.len(),
                forall|j: int| 0 <= j < pos ==> !before(x, #[trigger] out@[j]),
            ensures
                pos <= out.len(),
                forall|j: int| 0 <= j < pos ==> !before(x, #[trigger] out@[j]),
                pos < out.len() ==> before(x, out@[pos as int]),
            decreases out.len() - pos,
        {
            if less(&x, &out[pos]) {
                break;
            }
            pos = pos + 1;
        }
        let ghost old_out = out@;
        out.insert(pos, x);
        assert(out@ == old_out.insert(pos as int, x));
        assert forall|a: int, b: int| 0 <= a < b < out.len() implies before(#[trigger] out@[a], #[trigger] out@[b]) by {
            if b < pos {
                assert(before(old_out[a], old_out[b]));
            } else if b == pos {
                assert(out@[b] == x);
                assert(out@[a] == old_out[a]);
                assert(!before(x, old_out[a]));
                assert(before(x, old_out[a]) || before(old_out[a], x));
            } else if a < pos {
                assert(out@[a] == old_out[a]);
                assert(out@[b] == old_out[b - 1]);
                assert(before(old_out[a], old_out[b - 1]));
            } else if a == pos {
                assert(out@[a] == x);
                assert(out@[b] == old_out[b - 1]);
                assert(before(x, old_out[pos as int]));
                if b - 1 > pos {
                    assert(before(old_out[pos as int], old_out[b - 1]));
                }
            } else {
                assert(out@[a] == old_out[a - 1]);
                assert(out@[b] == old_out[b - 1]);
                assert(before(old_out[a - 1], old_out[b - 1]));
            }
        }
        assert(tail1 =~= seq![x] + tail);
        assert forall|y: T| out@.contains(y) <==> tail1.contains(y) by {
            if out@.contains(y) {
                let i = choose|i: int| 0 <= i < out.len() && out@[i] == y;
                if i == pos {
                    assert(tail1[0] == y);
                } else {
                    if i < pos {
                        assert(old_out[i] == y);
                    } else {
                        assert(old_out[i - 1] == y);
                    }
                    assert(old_out.contains(y));
                    assert(tail.contains(y));
                    let k = choose|k: int| 0 <= k < tail.len() && tail[k] == y;
                    assert(tail1[k + 1] == y);
                }
            }
            if tail1.contains(y) {
                let i = choose|i: int| 0 <= i < tail1.len() && tail1[i] == y;
                if i == 0 {
                    assert(out@[pos as int] == y);
                } else {
                    assert(tail[i - 1] == y);
                    assert(tail.contains(y));
                    assert(old_out.contains(y));
                    let k = choose|k: int| 0 <= k < old_out.len() && old_out[k] == y;
                    if k < pos {
                        assert(out@[k] == y);
                    } else {
                        assert(out@[k + 1] == y);
                    }
                }
            }
        }
        assert(rest.len() == n - 1);
    }
    assert(v0.subrange(0, v0.len() as int) =~= v0);
    out
}

} // verus!
