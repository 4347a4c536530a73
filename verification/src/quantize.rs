use vstd::prelude::*;

use crate::Input;
use crate::Output;

verus! {

/// Milliseconds per beat at a given tempo, by integer division.
pub open spec fn beat_period(bpm: u32) -> int {
    60000int / bpm as int
}

/// The index of the beat boundary nearest to a millisecond timestamp, ties
/// broken toward the earlier beat.
pub open spec fn quantize(key: u32, period: int) -> int
    recommends
        period >= 1,
{
    let lower = key as int / period;
    if key - lower * period <= (lower + 1) * period - key {
        lower
    } else {
        lower + 1
    }
}

/// `quantize`, packed back into the 32-bit range it provably stays in.
pub open spec fn quantize32(key: u32, bpm: u32) -> u32 {
    quantize(key, beat_period(bpm)) as u32
}

pub open spec fn strictly_increasing(s: Seq<u32>) -> bool {
    forall|i: int, j: int| 0 <= i < j < s.len() ==> s[i] < s[j]
}

pub open spec fn sorted(s: Seq<u32>) -> bool {
    forall|i: int, j: int| 0 <= i < j < s.len() ==> s[i] <= s[j]
}

/// The quantized beat indices of a key list, as a set.
pub open spec fn quantized_set(keys: Seq<u32>, bpm: u32) -> Set<u32> {
    keys.map_values(|k: u32| quantize32(k, bpm)).to_set()
}

/// At a tempo within `1..=60000`, a quantized beat index fits in 32 bits, so
/// `quantize32` agrees with `quantize`.
pub proof fn lemma_quantize_in_range(key: u32, bpm: u32)
    requires
        1 <= bpm <= 60000,
    ensures
        0 <= quantize(key, beat_period(bpm)) <= u32::MAX,
        quantize32(key, bpm) == quantize(key, beat_period(bpm)),
{
    let p = beat_period(bpm);
    vstd::arithmetic::div_mod::lemma_div_is_ordered_by_denominator(60000, bpm as int, 60000);
    assert(p >= 1);
    let lower = key as int / p;
    vstd::arithmetic::div_mod::lemma_fundamental_div_mod(key as int, p);
    vstd::arithmetic::div_mod::lemma_mod_bound(key as int, p);
    let rem = key - lower * p;
    assert(0 <= rem < p);
    assert(lower >= 0) by (nonlinear_arith)
        requires
            lower * p + rem == key,
            0 <= rem < p,
            p >= 1,
            key >= 0,
    ;
    if rem <= (lower + 1) * p - key {
        assert(lower * p <= key) by (nonlinear_arith)
            requires
                lower * p + rem == key,
                rem >= 0,
        ;
        assert(lower <= key) by (nonlinear_arith)
            requires
                lower * p <= key,
                lower >= 0,
                p >= 1,
        ;
    } else {
        assert((lower + 1) * p == lower * p + p) by (nonlinear_arith);
        assert(rem > p - rem);
        assert(p >= 2);
        assert(2 * lower <= lower * p) by (nonlinear_arith)
            requires
                lower >= 0,
                p >= 2,
        ;
        assert(2 * lower <= key);
    }
}

/// A timestamp that sits exactly on a beat boundary keeps its beat index: the
/// tie at a boundary is broken toward the lower beat.
pub proof fn lemma_quantize_tie_low(b: u32, period: int)
    requires
        1 <= period,
        b * period <= u32::MAX,
    ensures
        quantize((b * period) as u32, period) == b,
{
    let key = (b * period) as u32;
    assert(b * period >= 0) by (nonlinear_arith)
        requires
            b >= 0,
            period >= 1,
    ;
    assert(key as int == period * b) by (nonlinear_arith)
        requires
            key as int == b * period,
    ;
    vstd::arithmetic::div_mod::lemma_div_multiples_vanish(b as int, period);
    let lower = key as int / period;
    assert(lower == b);
    assert(key - lower * period == 0) by (nonlinear_arith)
        requires
            key as int == b * period,
            lower == b,
    ;
    assert((lower + 1) * period - key == period) by (nonlinear_arith)
        requires
            key == lower * period,
    ;
}

/// Computes the nearest beat index for one timestamp.
fn quantize_key(key: u32, beat_ms: u32, Ghost(bpm): Ghost<u32>) -> (b: u32)
    requires
        1 <= bpm <= 60000,
        beat_ms as int == beat_period(bpm),
    ensures
        b == quantize32(key, bpm),
        b as int == quantize(key, beat_ms as int),
{
    proof {
        lemma_quantize_in_range(key, bpm);
        vstd::arithmetic::div_mod::lemma_div_is_ordered_by_denominator(60000, bpm as int, 60000);
        vstd::arithmetic::div_mod::lemma_fundamental_div_mod(key as int, beat_ms as int);
        vstd::arithmetic::div_mod::lemma_mod_bound(key as int, beat_ms as int);
    }
    let lower = key / beat_ms;
    assert(lower * beat_ms <= key) by (nonlinear_arith)
        requires
            (lower as int) * (beat_ms as int) + (key as int) % (beat_ms as int) == key,
            (key as int) % (beat_ms as int) >= 0,
    ;
    let rem = key - lower * beat_ms;
    let upper_ticks: u64 = lower as u64 * beat_ms as u64 + beat_ms as u64;
    proof {
        assert(upper_ticks == (lower as int + 1) * (beat_ms as int)) by (nonlinear_arith)
            requires
                upper_ticks == (lower as int) * (beat_ms as int) + beat_ms as int,
        ;
        assert(upper_ticks >= key);
    }
    if rem as u64 <= upper_ticks - key as u64 {
        lower
    } else {
        lower + 1
    }
}

/// An unordered multiset view of two sequences agrees exactly when they hold
/// the same values; then their sets agree too.
proof fn lemma_multiset_eq_to_set_eq(a: Seq<u32>, b: Seq<u32>)
    requires
        a.to_multiset() == b.to_multiset(),
    ensures
        a.to_set() == b.to_set(),
{
    broadcast use vstd::seq_lib::to_multiset_contains;

    assert forall|x: u32| a.to_set().contains(x) implies b.to_set().contains(x) by {
        assert(a.contains(x));
        assert(a.to_multiset().count(x) > 0);
        assert(b.contains(x));
    }
    assert forall|x: u32| b.to_set().contains(x) implies a.to_set().contains(x) by {
        assert(b.contains(x));
        assert(b.to_multiset().count(x) > 0);
        assert(a.contains(x));
    }
    assert(a.to_set() =~= b.to_set());
}

/// Sorts a list of beat indices ascending.
fn sort_vec(v: &Vec<u32>) -> (r: Vec<u32>)
    ensures
        sorted(r@),
        r@.to_multiset() == v@.to_multiset(),
{
    broadcast use vstd::seq_lib::to_multiset_insert;
    broadcast use vstd::seq_lib::to_multiset_build;

    let mut r: Vec<u32> = Vec::new();
    let mut i: usize = 0;
    proof {
        assert(v@.take(0) =~= Seq::<u32>::empty());
        assert(r@.to_multiset() =~= v@.take(0).to_multiset());
    }
    while i < v.len()
        invariant
            i <= v@.len(),
            sorted(r@),
            r@.to_multiset() == v@.take(i as int).to_multiset(),
        decreases v@.len() - i,
    {
        let x = v[i];
        let mut j: usize = 0;
        while j < r.len() && r[j] <= x
            invariant
                j <= r@.len(),
                forall|m: int| 0 <= m < j ==> r@[m] <= x,
            decreases r@.len() - j,
        {
            j = j + 1;
        }
        let ghost r_old = r@;
        r.insert(j, x);
        proof {
            r_old.insert_ensures(j as int, x);
            assert forall|m: int, n: int| 0 <= m < n < r@.len() implies r@[m] <= r@[n] by {
                if n < j {
                    assert(r@[m] == r_old[m] && r@[n] == r_old[n]);
                } else if m > j {
                    assert(r@[m] == r_old[m - 1] && r@[n] == r_old[n - 1]);
                } else if m == j {
                    assert(r@[m] == x && r@[n] == r_old[n - 1]);
                    assert(r_old[j as int] > x);
                } else if n == j {
                    assert(r@[m] == r_old[m] && r@[n] == x);
                } else {
                    assert(r@[m] == r_old[m] && r@[n] == r_old[n - 1]);
                    if n - 1 == j {
                        assert(r_old[j as int] > x);
                        assert(r@[m] <= x);
                    }
                }
            }
            vstd::seq_lib::to_multiset_insert(r_old, j as int, x);
            assert(r@.to_multiset() == r_old.to_multiset().insert(x));
            vstd::seq_lib::to_multiset_build(v@.take(i as int), x);
            assert(v@.take(i as int + 1) =~= v@.take(i as int).push(x));
        }
        i = i + 1;
    }
    proof {
        assert(v@.take(v@.len() as int) =~= v@);
    }
    r
}

/// Drops adjacent duplicates from a sorted list, leaving a strictly
/// increasing list over the same values.
fn dedup_sorted(v: &Vec<u32>) -> (r: Vec<u32>)
    requires
        sorted(v@),
    ensures
        strictly_increasing(r@),
        r@.to_set() == v@.to_set(),
{
    broadcast use vstd::seq::Seq::lemma_to_set_insert_commutes;

    let mut r: Vec<u32> = Vec::new();
    let mut i: usize = 0;
    proof {
        assert(v@.take(0) =~= Seq::<u32>::empty());
        assert(r@.to_set() =~= v@.take(0).to_set());
    }
    while i < v.len()
        invariant
            i <= v@.len(),
            sorted(v@),
            strictly_increasing(r@),
            r@.to_set() == v@.take(i as int).to_set(),
            i > 0 ==> r@.len() > 0 && r@.last() == v@[i - 1],
            i == 0 ==> r@.len() == 0,
        decreases v@.len() - i,
    {
        let x = v[i];
        let mut push_it = true;
        if r.len() > 0 {
            let last = r[r.len() - 1];
            if last == x {
                push_it = false;
            }
        }
        let ghost r_old = r@;
        if push_it {
            r.push(x);
            proof {
                assert(r@ =~= r_old + seq![x]);
                Seq::<u32>::lemma_to_set_insert_commutes(r_old, x);
                assert(r@.to_set() =~= r_old.to_set().insert(x));
                if r_old.len() > 0 {
                    assert(i > 0);
                    assert(r_old.last() == v@[i - 1]);
                    assert(v@[i - 1] <= v@[i as int]);
                    assert(r_old.last() != x);
                    assert forall|m: int| 0 <= m < r_old.len() implies r_old[m] < x by {
                        if m < r_old.len() - 1 {
                            assert(r_old[m] < r_old[r_old.len() - 1]);
                        }
                    }
                }
            }
        } else {
            proof {
                assert(i > 0);
                assert(r_old.last() == x);
                assert(v@.take(i as int).contains(x)) by {
                    assert(v@.take(i as int)[i - 1] == x);
                }
                assert(v@.take(i as int).to_set().contains(x));
            }
        }
        proof {
            assert(v@.take(i as int + 1) =~= v@.take(i as int) + seq![x]);
            Seq::<u32>::lemma_to_set_insert_commutes(v@.take(i as int), x);
            if !push_it {
                assert(v@.take(i as int).to_set().insert(x) =~= v@.take(i as int).to_set());
            }
        }
        i = i + 1;
    }
    proof {
        assert(v@.take(v@.len() as int) =~= v@);
    }
    r
}

/// Maps every timestamp to its nearest beat index, then sorts the indices and
/// drops duplicates: the result lists each occupied beat once, ascending.
pub fn solve(input: Input) -> (out: Output)
    requires
        1 <= input.bpm <= 60000,
    ensures
        out.bpm == input.bpm,
        strictly_increasing(out.beat@),
        out.beat@.to_set() == quantized_set(input.keys@, input.bpm),
{
    let bpm = input.bpm;
    let beat_ms = 60000 / bpm;
    proof {
        vstd::arithmetic::div_mod::lemma_div_is_ordered_by_denominator(60000, bpm as int, 60000);
    }
    let ghost qmap = |k: u32| quantize32(k, bpm);
    let mut raw: Vec<u32> = Vec::new();
    let mut i: usize = 0;
    proof {
        assert(raw@ =~= input.keys@.take(0).map_values(qmap));
    }
    while i < input.keys.len()
        invariant
            i <= input.keys@.len(),
            1 <= bpm <= 60000,
            bpm == input.bpm,
            beat_ms as int == beat_period(bpm),
            qmap == (|k: u32| quantize32(k, bpm)),
            raw@ == input.keys@.take(i as int).map_values(qmap),
        decreases input.keys@.len() - i,
    {
        let k = input.keys[i];
        let b = quantize_key(k, beat_ms, Ghost(bpm));
        raw.push(b);
        proof {
            assert(input.keys@.take(i as int + 1) =~= input.keys@.take(i as int).push(k));
            assert(input.keys@.take(i as int + 1).map_values(qmap) =~= input.keys@.take(
                i as int,
            ).map_values(qmap).push(qmap(k)));
        }
        i = i + 1;
    }
    proof {
        assert(input.keys@.take(input.keys@.len() as int) =~= input.keys@);
    }
    let sorted_v = sort_vec(&raw);
    let beat = dedup_sorted(&sorted_v);
    proof {
        lemma_multiset_eq_to_set_eq(sorted_v@, raw@);
    }
    Output { bpm, beat }
}

/// Quantizing is idempotent: take a strictly increasing list of beat indices,
/// lay each back onto its beat boundary as a timestamp, and quantize again;
/// any list that meets `solve`'s contract for those timestamps is the original
/// list of beat indices.
pub proof fn lemma_quantize_idempotent(beats: Seq<u32>, keys: Seq<u32>, bpm: u32, requant: Seq<u32>)
    requires
        1 <= bpm <= 60000,
        strictly_increasing(beats),
        keys.len() == beats.len(),
        forall|i: int| 0 <= i < beats.len() ==> #[trigger] keys[i] == beats[i] * beat_period(bpm),
        strictly_increasing(requant),
        requant.to_set() == quantized_set(keys, bpm),
    ensures
        requant == beats,
{
    vstd::arithmetic::div_mod::lemma_div_is_ordered_by_denominator(60000, bpm as int, 60000);
    let p = beat_period(bpm);
    assert forall|i: int| 0 <= i < keys.len() implies quantize32(keys[i], bpm) == beats[i] by {
        assert(keys[i] == beats[i] * p);
        lemma_quantize_tie_low(beats[i], p);
        lemma_quantize_in_range(keys[i], bpm);
    }
    assert(keys.map_values(|k: u32| quantize32(k, bpm)) =~= beats);
    lemma_strictly_increasing_same_set(requant, beats);
}

/// With no keys there are no beats: any beat list that meets `solve`'s
/// contract for an empty key list is itself empty.
pub proof fn lemma_empty_keys_empty_beats(bpm: u32, beat: Seq<u32>)
    requires
        1 <= bpm <= 60000,
        strictly_increasing(beat),
        beat.to_set() == quantized_set(Seq::<u32>::empty(), bpm),
    ensures
        beat == Seq::<u32>::empty(),
{
    assert(Seq::<u32>::empty().map_values(|k: u32| quantize32(k, bpm)) =~= Seq::<u32>::empty());
    lemma_strictly_increasing_same_set(beat, Seq::<u32>::empty());
}

/// Two strictly increasing lists over the same set of values are the same
/// list.
pub proof fn lemma_strictly_increasing_same_set(x: Seq<u32>, y: Seq<u32>)
    requires
        strictly_increasing(x),
        strictly_increasing(y),
        x.to_set() == y.to_set(),
    ensures
        x == y,
    decreases x.len(),
{
    if x.len() == 0 {
        if y.len() > 0 {
            assert(y.contains(y[0]));
            assert(y.to_set().contains(y[0]));
            assert(x.to_set().contains(y[0]));
            assert(x.contains(y[0]));
        }
        assert(x =~= y);
    } else if y.len() == 0 {
        assert(x.contains(x[0]));
        assert(x.to_set().contains(x[0]));
        assert(y.to_set().contains(x[0]));
        assert(y.contains(x[0]));
    } else {
        assert(x.to_set().contains(x[0])) by {
            assert(x.contains(x[0]));
        }
        assert(y.to_set().contains(y[0])) by {
            assert(y.contains(y[0]));
        }
        assert(y[0] <= x[0]) by {
            assert(y.contains(x[0]));
            let j = choose|j: int| 0 <= j < y.len() && y[j] == x[0];
            if j > 0 {
                assert(y[0] < y[j]);
            }
        }
        assert(x[0] <= y[0]) by {
            assert(x.contains(y[0]));
            let j = choose|j: int| 0 <= j < x.len() && x[j] == y[0];
            if j > 0 {
                assert(x[0] < x[j]);
            }
        }
        let xt = x.drop_first();
        let yt = y.drop_first();
        assert(strictly_increasing(xt)) by {
            assert(forall|m: int, n: int|
                0 <= m < n < xt.len() ==> xt[m] == x[m + 1] && xt[n] == x[n + 1]);
        }
        assert(strictly_increasing(yt)) by {
            assert(forall|m: int, n: int|
                0 <= m < n < yt.len() ==> yt[m] == y[m + 1] && yt[n] == y[n + 1]);
        }
        assert(xt.to_set() =~= x.to_set().remove(x[0])) by {
            assert forall|e: u32| xt.to_set().contains(e) implies x.to_set().remove(x[0]).contains(
                e,
            ) by {
                let m = choose|m: int| 0 <= m < xt.len() && xt[m] == e;
                assert(x[m + 1] == e);
                assert(x.contains(e));
                assert(x[0] < x[m + 1]);
            }
            assert forall|e: u32| x.to_set().remove(x[0]).contains(e) implies xt.to_set().contains(
                e,
            ) by {
                let m = choose|m: int| 0 <= m < x.len() && x[m] == e;
                assert(m > 0);
                assert(xt[m - 1] == e);
                assert(xt.contains(e));
            }
        }
        assert(yt.to_set() =~= y.to_set().remove(y[0])) by {
            assert forall|e: u32| yt.to_set().contains(e) implies y.to_set().remove(y[0]).contains(
                e,
            ) by {
                let m = choose|m: int| 0 <= m < yt.len() && yt[m] == e;
                assert(y[m + 1] == e);
                assert(y.contains(e));
                assert(y[0] < y[m + 1]);
            }
            assert forall|e: u32| y.to_set().remove(y[0]).contains(e) implies yt.to_set().contains(
                e,
            ) by {
                let m = choose|m: int| 0 <= m < y.len() && y[m] == e;
                assert(m > 0);
                assert(yt[m - 1] == e);
                assert(yt.contains(e));
            }
        }
        lemma_strictly_increasing_same_set(xt, yt);
        assert(x =~= y) by {
            assert(x.len() == xt.len() + 1);
            assert(y.len() == yt.len() + 1);
            assert(forall|m: int| 1 <= m < x.len() ==> x[m] == xt[m - 1] && y[m] == yt[m - 1]);
        }
    }
}

} // verus!
