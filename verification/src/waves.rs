//! Work cut into waves that run one after another, each at most so wide.

use vstd::prelude::*;

verus! {

/// The waves of the items `from..n`: where each begins and ends.
pub open spec fn waves_from(from: nat, n: nat, width: nat) -> Seq<(nat, nat)>
    decreases n - from,
{
    if width == 0 || from >= n {
        Seq::empty()
    } else {
        let to = if n - from <= width {
            n
        } else {
            from + width
        };
        seq![(from, to)] + waves_from(to, n, width)
    }
}

/// How many items may run at once: at least one.
pub open spec fn width_of(jobs: nat) -> nat {
    if jobs == 0 {
        1
    } else {
        jobs
    }
}

/// The bounds of the waves, as numbers.
pub open spec fn bounds(v: Seq<(usize, usize)>) -> Seq<(nat, nat)> {
    v.map_values(|w: (usize, usize)| (w.0 as nat, w.1 as nat))
}

/// Cuts `n` items into waves of `jobs` items, the last of what is left.
pub fn waves(n: usize, jobs: usize) -> (r: Vec<(usize, usize)>)
    ensures
        bounds(r@) == waves_from(0, n as nat, width_of(jobs as nat)),
        forall|i: int| 0 <= i < r@.len() ==> (#[trigger] r@[i]).0 < r@[i].1 <= n,
{
    let width: usize = if jobs == 0 {
        1
    } else {
        jobs
    };
    let ghost all = waves_from(0, n as nat, width as nat);
    let mut r: Vec<(usize, usize)> = Vec::new();
    let mut from: usize = 0;
    assert(bounds(r@) + all =~= all);
    while from < n
        invariant
            from <= n,
            width > 0,
            bounds(r@) + waves_from(from as nat, n as nat, width as nat) == all,
            forall|i: int| 0 <= i < r@.len() ==> (#[trigger] r@[i]).0 < r@[i].1 <= n,
        decreases n - from,
    {
        let to: usize = if n - from <= width {
            n
        } else {
            from + width
        };
        let ghost before = bounds(r@);
        let ghost rest = waves_from(to as nat, n as nat, width as nat);
        r.push((from, to));
        proof {
            assert(bounds(r@) =~= before.push((from as nat, to as nat)));
            assert(bounds(r@) + rest =~= before + (seq![(from as nat, to as nat)] + rest));
        }
        from = to;
    }
    assert(bounds(r@) =~= all);
    r
}

/// No wave is empty or wider than allowed.
pub proof fn law_no_wave_is_too_wide(from: nat, n: nat, width: nat, i: int)
    requires
        0 <= i < waves_from(from, n, width).len(),
    ensures
        ({
            let w = waves_from(from, n, width)[i];
            from <= w.0 < w.1 <= n && w.1 - w.0 <= width
        }),
    decreases n - from,
{
    let to = if n - from <= width {
        n
    } else {
        from + width
    };
    if i > 0 {
        law_no_wave_is_too_wide(to, n, width, i - 1);
    }
}

/// Each wave begins where the one before it ends.
pub proof fn law_waves_follow_one_another(from: nat, n: nat, width: nat, i: int)
    requires
        0 <= i < waves_from(from, n, width).len(),
    ensures
        waves_from(from, n, width)[i].0 == if i == 0 {
            from
        } else {
            waves_from(from, n, width)[i - 1].1
        },
    decreases n - from,
{
    let to = if n - from <= width {
        n
    } else {
        from + width
    };
    if i > 0 {
        law_waves_follow_one_another(to, n, width, i - 1);
    }
}

/// Every item is in a wave.
pub proof fn law_every_item_is_in_a_wave(from: nat, n: nat, width: nat, x: nat)
    requires
        width > 0,
        from <= x < n,
    ensures
        exists|i: int|
            0 <= i < waves_from(from, n, width).len() && (#[trigger] waves_from(from, n, width)[i]).0
                <= x < waves_from(from, n, width)[i].1,
    decreases n - from,
{
    let to = if n - from <= width {
        n
    } else {
        from + width
    };
    let all = waves_from(from, n, width);
    let rest = waves_from(to, n, width);
    if x < to {
        assert(all[0] == (from, to));
    } else {
        law_every_item_is_in_a_wave(to, n, width, x);
        let i = choose|i: int| 0 <= i < rest.len() && (#[trigger] rest[i]).0 <= x < rest[i].1;
        assert(all[i + 1] == rest[i]);
    }
}

} // verus!
