//! Sorted, disjoint runs of free sectors, and the first-fit split that
//! allocation performs on them.
use vstd::prelude::*;

use devicemapper::Sectors;

verus! {

/// The first sector after a run `(start, length)`.
pub open spec fn run_end(r: (Sectors, Sectors)) -> int {
    r.0.0 + r.1.0
}

/// Whether sector `x` lies in run `r`.
pub open spec fn in_run(r: (Sectors, Sectors), x: int) -> bool {
    r.0.0 <= x < run_end(r)
}

/// Whether sector `x` lies in one of the runs of `s`.
pub open spec fn covers(s: Seq<(Sectors, Sectors)>, x: int) -> bool {
    exists|i: int| 0 <= i < s.len() && in_run(#[trigger] s[i], x)
}

/// The number of sectors in the runs of `s`.
pub open spec fn runs_total(s: Seq<(Sectors, Sectors)>) -> nat
    decreases s.len(),
{
    if s.len() == 0 {
        0
    } else {
        s[0].1.0 as nat + runs_total(s.drop_first())
    }
}

/// The runs of `s` are non-empty, ascending and pairwise disjoint.
pub open spec fn runs_sorted(s: Seq<(Sectors, Sectors)>) -> bool {
    &&& forall|i: int| 0 <= i < s.len() ==> (#[trigger] s[i]).1.0 > 0
    &&& forall|i: int, j: int| 0 <= i < j < s.len() ==> run_end(#[trigger] s[i]) <= (#[trigger] s[j]).0.0
}

/// Every run of `s` lies within `[lo, hi)`.
pub open spec fn runs_within(s: Seq<(Sectors, Sectors)>, lo: int, hi: int) -> bool {
    forall|i: int| 0 <= i < s.len() ==> lo <= (#[trigger] s[i]).0.0 && run_end(s[i]) <= hi
}

/// Every run of `a` ends at or before the start of every run of `b`.
pub open spec fn runs_below(a: Seq<(Sectors, Sectors)>, b: Seq<(Sectors, Sectors)>) -> bool {
    forall|i: int, j: int| 0 <= i < a.len() && 0 <= j < b.len() ==> run_end(#[trigger] a[i]) <= (#[trigger] b[j]).0.0
}

/// First fit: take up to `n` sectors from the front of `s`, splitting the
/// last run touched. The result is the runs taken and the runs left.
pub open spec fn take_runs(s: Seq<(Sectors, Sectors)>, n: nat) -> (Seq<(Sectors, Sectors)>, Seq<(Sectors, Sectors)>)
    decreases s.len(),
{
    if s.len() == 0 || n == 0 {
        (Seq::empty(), s)
    } else if s[0].1.0 <= n {
        let t = take_runs(s.drop_first(), (n - s[0].1.0) as nat);
        (seq![s[0]] + t.0, t.1)
    } else {
        (
            seq![(s[0].0, Sectors(n as u64))],
            seq![(Sectors((s[0].0.0 + n) as u64), Sectors((s[0].1.0 - n) as u64))] + s.drop_first(),
        )
    }
}

pub open spec fn min_nat(a: nat, b: nat) -> nat {
    if a <= b { a } else { b }
}

proof fn lemma_covers_cons(r: (Sectors, Sectors), t: Seq<(Sectors, Sectors)>, x: int)
    ensures
        covers(seq![r] + t, x) == (in_run(r, x) || covers(t, x)),
{
    let s = seq![r] + t;
    if in_run(r, x) {
        assert(in_run(s[0], x));
    }
    if covers(t, x) {
        let i = choose|i: int| 0 <= i < t.len() && in_run(#[trigger] t[i], x);
        assert(in_run(s[i + 1], x));
    }
    if covers(s, x) {
        let i = choose|i: int| 0 <= i < s.len() && in_run(#[trigger] s[i], x);
        if i > 0 {
            assert(in_run(t[i - 1], x));
        }
    }
}

proof fn lemma_sorted_tail(s: Seq<(Sectors, Sectors)>, lo: int, hi: int)
    requires
        s.len() > 0,
        runs_sorted(s),
        runs_within(s, lo, hi),
    ensures
        runs_sorted(s.drop_first()),
        runs_within(s.drop_first(), run_end(s[0]), hi),
        covers(s, s[0].0.0 as int),
{
    let t = s.drop_first();
    assert forall|i: int| 0 <= i < t.len() implies run_end(s[0]) <= (#[trigger] t[i]).0.0 && run_end(t[i]) <= hi by {
        assert(t[i] == s[i + 1]);
    }
    assert forall|i: int, j: int| 0 <= i < j < t.len() implies run_end(#[trigger] t[i]) <= (#[trigger] t[j]).0.0 by {
        assert(t[i] == s[i + 1] && t[j] == s[j + 1]);
    }
    assert(in_run(s[0], s[0].0.0 as int));
}

/// What first fit takes and leaves: the amount taken is `min(n, total)`,
/// both parts stay sorted within the bounds of `s`, every sector of `s`
/// lands in exactly one part, and everything taken lies below everything
/// left.
pub proof fn lemma_take_runs(s: Seq<(Sectors, Sectors)>, n: nat, lo: int, hi: int)
    requires
        runs_sorted(s),
        runs_within(s, lo, hi),
        hi <= u64::MAX,
    ensures
        runs_total(take_runs(s, n).0) == min_nat(n, runs_total(s)),
        runs_total(take_runs(s, n).0) + runs_total(take_runs(s, n).1) == runs_total(s),
        runs_sorted(take_runs(s, n).0),
        runs_sorted(take_runs(s, n).1),
        runs_within(take_runs(s, n).0, lo, hi),
        runs_within(take_runs(s, n).1, lo, hi),
        runs_below(take_runs(s, n).0, take_runs(s, n).1),
        forall|x: int| covers(s, x) == (covers(take_runs(s, n).0, x) || covers(take_runs(s, n).1, x)),
    decreases s.len(),
{
    let (a, b) = take_runs(s, n);
    if s.len() == 0 || n == 0 {
        assert(a =~= Seq::<(Sectors, Sectors)>::empty());
        assert forall|x: int| covers(s, x) == (covers(a, x) || covers(b, x)) by {}
    } else {
        let r = s[0];
        let t = s.drop_first();
        lemma_sorted_tail(s, lo, hi);
        assert(s =~= seq![r] + t);
        if r.1.0 <= n {
            let m = (n - r.1.0) as nat;
            let (a2, b2) = take_runs(t, m);
            lemma_take_runs(t, m, run_end(r), hi);
            assert(a == seq![r] + a2);
            assert(b == b2);
            assert(a.drop_first() =~= a2);
            assert(runs_total(a) == r.1.0 + runs_total(a2));
            assert(runs_total(s) == r.1.0 + runs_total(t));
            assert forall|i: int, j: int| 0 <= i < j < a.len() implies run_end(#[trigger] a[i]) <= (#[trigger] a[j]).0.0 by {
                if i > 0 {
                    assert(a[i] == a2[i - 1]);
                }
                assert(a[j] == a2[j - 1]);
            }
            assert forall|i: int| 0 <= i < a.len() implies (#[trigger] a[i]).1.0 > 0 by {
                if i > 0 {
                    assert(a[i] == a2[i - 1]);
                }
            }
            assert forall|i: int| 0 <= i < a.len() implies lo <= (#[trigger] a[i]).0.0 && run_end(a[i]) <= hi by {
                if i > 0 {
                    assert(a[i] == a2[i - 1]);
                }
            }
            assert forall|i: int, j: int| 0 <= i < a.len() && 0 <= j < b.len() implies run_end(#[trigger] a[i]) <= (#[trigger] b[j]).0.0 by {
                if i > 0 {
                    assert(a[i] == a2[i - 1]);
                }
            }
            assert forall|x: int| covers(s, x) == (covers(a, x) || covers(b, x)) by {
                lemma_covers_cons(r, t, x);
                lemma_covers_cons(r, a2, x);
            }
        } else {
            let r1 = (r.0, Sectors(n as u64));
            let r2 = (Sectors((r.0.0 + n) as u64), Sectors((r.1.0 - n) as u64));
            assert(r2.0.0 == r.0.0 + n && r2.1.0 == r.1.0 - n);
            assert(a == seq![r1]);
            assert(b == seq![r2] + t);
            assert(a.drop_first() =~= Seq::<(Sectors, Sectors)>::empty());
            assert(b.drop_first() =~= t);
            assert(runs_total(t) + r.1.0 == runs_total(s));
            assert(runs_total(a) == n + runs_total(a.drop_first()));
            assert(runs_total(a) == n);
            assert(runs_total(b) == r2.1.0 + runs_total(t));
            assert forall|i: int, j: int| 0 <= i < j < b.len() implies run_end(#[trigger] b[i]) <= (#[trigger] b[j]).0.0 by {
                if i > 0 {
                    assert(b[i] == t[i - 1]);
                }
                assert(b[j] == t[j - 1]);
            }
            assert forall|i: int| 0 <= i < b.len() implies (#[trigger] b[i]).1.0 > 0 by {
                if i > 0 {
                    assert(b[i] == t[i - 1]);
                }
            }
            assert forall|i: int| 0 <= i < b.len() implies lo <= (#[trigger] b[i]).0.0 && run_end(b[i]) <= hi by {
                if i > 0 {
                    assert(b[i] == t[i - 1]);
                }
            }
            assert forall|i: int, j: int| 0 <= i < a.len() && 0 <= j < b.len() implies run_end(#[trigger] a[i]) <= (#[trigger] b[j]).0.0 by {
                if j > 0 {
                    assert(b[j] == t[j - 1]);
                }
            }
            assert forall|x: int| covers(s, x) == (covers(a, x) || covers(b, x)) by {
                lemma_covers_cons(r, t, x);
                lemma_covers_cons(r2, t, x);
                assert(a =~= seq![r1] + Seq::<(Sectors, Sectors)>::empty());
                lemma_covers_cons(r1, Seq::<(Sectors, Sectors)>::empty(), x);
            }
        }
    }
}

/// Runs of which one lies wholly below the other share no sector.
pub proof fn lemma_below_disjoint(a: Seq<(Sectors, Sectors)>, b: Seq<(Sectors, Sectors)>, x: int)
    requires
        runs_below(a, b),
    ensures
        !(covers(a, x) && covers(b, x)),
{
    if covers(a, x) && covers(b, x) {
        let i = choose|i: int| 0 <= i < a.len() && in_run(#[trigger] a[i], x);
        let j = choose|j: int| 0 <= j < b.len() && in_run(#[trigger] b[j], x);
        assert(run_end(a[i]) <= b[j].0.0);
    }
}

pub proof fn lemma_runs_total_push(s: Seq<(Sectors, Sectors)>, r: (Sectors, Sectors))
    ensures
        runs_total(s.push(r)) == runs_total(s) + r.1.0,
    decreases s.len(),
{
    if s.len() == 0 {
        assert(s.push(r).drop_first() =~= Seq::<(Sectors, Sectors)>::empty());
        assert(runs_total(Seq::<(Sectors, Sectors)>::empty()) == 0);
        assert(s.push(r)[0] == r);
        assert(runs_total(s.push(r)) == r.1.0 + runs_total(s.push(r).drop_first()));
    } else {
        assert(s.push(r).drop_first() =~= s.drop_first().push(r));
        assert(s.push(r)[0] == s[0]);
        lemma_runs_total_push(s.drop_first(), r);
    }
}

/// Two allocations in a row from the same free runs share no sector, and
/// the first shares none with what the second leaves free.
pub proof fn lemma_allocations_disjoint(free: Seq<(Sectors, Sectors)>, n1: nat, n2: nat, lo: int, hi: int)
    requires
        runs_sorted(free),
        runs_within(free, lo, hi),
        hi <= u64::MAX,
    ensures
        forall|x: int|
            !(covers(take_runs(free, n1).0, x) && covers(take_runs(take_runs(free, n1).1, n2).0, x)),
        forall|x: int|
            !(covers(take_runs(free, n1).0, x) && covers(take_runs(take_runs(free, n1).1, n2).1, x)),
{
    let (a1, f1) = take_runs(free, n1);
    lemma_take_runs(free, n1, lo, hi);
    lemma_take_runs(f1, n2, lo, hi);
    assert forall|x: int| !(covers(a1, x) && covers(take_runs(f1, n2).0, x)) by {
        lemma_below_disjoint(a1, f1, x);
    }
    assert forall|x: int| !(covers(a1, x) && covers(take_runs(f1, n2).1, x)) by {
        lemma_below_disjoint(a1, f1, x);
    }
}

/// A prefix of `s` holds no more sectors than `s`, and one more run adds
/// that run's length.
pub proof fn lemma_runs_prefix(s: Seq<(Sectors, Sectors)>, t: int)
    requires
        0 <= t < s.len(),
    ensures
        runs_total(s.take(t + 1)) == runs_total(s.take(t)) + s[t].1.0,
        runs_total(s.take(t + 1)) <= runs_total(s),
    decreases s.len() - t,
{
    assert(s.take(t + 1) =~= s.take(t).push(s[t]));
    lemma_runs_total_push(s.take(t), s[t]);
    if t + 1 < s.len() {
        lemma_runs_prefix(s, t + 1);
    } else {
        assert(s.take(t + 1) =~= s);
    }
}

/// Taking `n1` sectors and then `n2` more leaves what taking `n1 + n2`
/// at once leaves.
pub proof fn lemma_take_runs_compose(s: Seq<(Sectors, Sectors)>, n1: nat, n2: nat, lo: int, hi: int)
    requires
        runs_sorted(s),
        runs_within(s, lo, hi),
        hi <= u64::MAX,
    ensures
        take_runs(take_runs(s, n1).1, n2).1 == take_runs(s, n1 + n2).1,
    decreases s.len(),
{
    if s.len() == 0 || n1 == 0 {
    } else {
        let r = s[0];
        let t = s.drop_first();
        lemma_sorted_tail(s, lo, hi);
        if r.1.0 <= n1 {
            lemma_take_runs_compose(t, (n1 - r.1.0) as nat, n2, run_end(r), hi);
            assert((n1 - r.1.0) as nat + n2 == (n1 + n2 - r.1.0) as nat);
        } else {
            let r2 = (Sectors((r.0.0 + n1) as u64), Sectors((r.1.0 - n1) as u64));
            assert(r.0.0 + r.1.0 <= hi);
            assert(r2.0.0 == r.0.0 + n1 && r2.1.0 == r.1.0 - n1);
            let rest = seq![r2] + t;
            assert(take_runs(s, n1).1 == rest);
            assert(rest[0] == r2);
            assert(rest.drop_first() =~= t);
            if n2 == 0 {
            } else if r2.1.0 <= n2 {
                assert((n2 - r2.1.0) as nat == (n1 + n2 - r.1.0) as nat);
            } else {
                let r3 = (Sectors((r2.0.0 + n2) as u64), Sectors((r2.1.0 - n2) as u64));
                let r4 = (Sectors((r.0.0 + (n1 + n2)) as u64), Sectors((r.1.0 - (n1 + n2)) as u64));
                assert(r3 == r4);
            }
        }
    }
}

} // verus!
