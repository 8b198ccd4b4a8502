use vstd::prelude::*;

verus! {

// ---------------------------------------------------------------------------
// zip / unzip
// ---------------------------------------------------------------------------

/// The first `n` rounds of interleaving `a` with `b`: round `i` contributes
/// `a[i]` and then `b[i]`, each only where it exists.
pub open spec fn zip_rounds<T>(a: Seq<T>, b: Seq<T>, n: nat) -> Seq<T>
    decreases n,
{
    if n == 0 {
        Seq::empty()
    } else {
        let i = (n - 1) as int;
        let p = zip_rounds(a, b, (n - 1) as nat);
        let pa = if i < a.len() {
            p.push(a[i])
        } else {
            p
        };
        if i < b.len() {
            pa.push(b[i])
        } else {
            pa
        }
    }
}

/// `a` and `b` interleaved, `a[0] b[0] a[1] b[1] ...`; once the shorter one
/// runs out the rest of the longer one follows.
pub open spec fn spec_zip<T>(a: Seq<T>, b: Seq<T>) -> Seq<T> {
    zip_rounds(a, b, if a.len() >= b.len() {
        a.len()
    } else {
        b.len()
    })
}

/// The elements at even positions, in order.
pub open spec fn evens<T>(s: Seq<T>) -> Seq<T> {
    Seq::new(((s.len() + 1) / 2) as nat, |i: int| s[2 * i])
}

/// The elements at odd positions, in order.
pub open spec fn odds<T>(s: Seq<T>) -> Seq<T> {
    Seq::new((s.len() / 2) as nat, |i: int| s[2 * i + 1])
}

/// Interleaves two arrays (the `zip` op).
pub fn zip<T: Copy>(a: &Vec<T>, b: &Vec<T>) -> (out: Vec<T>)
    ensures
        out@ == spec_zip(a@, b@),
{
    let n = if a.len() >= b.len() {
        a.len()
    } else {
        b.len()
    };
    let mut out: Vec<T> = Vec::new();
    let mut i: usize = 0;
    while i < n
        invariant
            i <= n,
            n == (if a@.len() >= b@.len() {
                a@.len()
            } else {
                b@.len()
            }),
            out@ == zip_rounds(a@, b@, i as nat),
        decreases n - i,
    {
        if i < a.len() {
            out.push(a[i]);
        }
        if i < b.len() {
            out.push(b[i]);
        }
        i = i + 1;
    }
    out
}

/// Splits an array into its even-position and odd-position elements (the
/// `unzip` op).
pub fn unzip<T: Copy>(input: &Vec<T>) -> (r: (Vec<T>, Vec<T>))
    ensures
        r.0@ == evens(input@),
        r.1@ == odds(input@),
{
    let mut l: Vec<T> = Vec::new();
    let mut r: Vec<T> = Vec::new();
    let mut i: usize = 0;
    while i < input.len()
        invariant
            i <= input@.len(),
            l@ == evens(input@.take(i as int)),
            r@ == odds(input@.take(i as int)),
        decreases input@.len() - i,
    {
        let ghost before = input@.take(i as int);
        let ghost after = input@.take(i + 1);
        if i % 2 == 0 {
            l.push(input[i]);
        } else {
            r.push(input[i]);
        }
        i = i + 1;
        proof {
            assert(l@ =~= evens(after));
            assert(r@ =~= odds(after));
        }
    }
    assert(input@.take(i as int) =~= input@);
    (l, r)
}

/// While both arrays still have elements, each round of interleaving adds
/// one element of each.
proof fn lemma_zip_rounds_even<T>(a: Seq<T>, b: Seq<T>, n: nat)
    requires
        n <= a.len(),
        n <= b.len(),
    ensures
        zip_rounds(a, b, n).len() == 2 * n,
        forall|j: int|
            0 <= j < 2 * n ==> #[trigger] zip_rounds(a, b, n)[j] == if j % 2 == 0 {
                a[j / 2]
            } else {
                b[j / 2]
            },
    decreases n,
{
    if n > 0 {
        lemma_zip_rounds_even(a, b, (n - 1) as nat);
    }
}

/// Zipping two arrays of one length and unzipping the result gives back the
/// two arrays.
pub proof fn lemma_unzip_zip<T>(a: Seq<T>, b: Seq<T>)
    requires
        a.len() == b.len(),
    ensures
        evens(spec_zip(a, b)) == a,
        odds(spec_zip(a, b)) == b,
{
    lemma_zip_rounds_even(a, b, a.len());
    let z = spec_zip(a, b);
    assert(evens(z) =~= a) by {
        assert forall|i: int| 0 <= i < a.len() implies evens(z)[i] == a[i] by {
            assert(z[2 * i] == a[(2 * i) / 2]);
        }
    }
    assert(odds(z) =~= b) by {
        assert forall|i: int| 0 <= i < b.len() implies odds(z)[i] == b[i] by {
            assert(z[2 * i + 1] == b[(2 * i + 1) / 2]);
        }
    }
}

proof fn lemma_zip_rounds_tail_a<T>(a: Seq<T>, b: Seq<T>, n: nat)
    requires
        b.len() <= n <= a.len(),
    ensures
        zip_rounds(a, b, n) == zip_rounds(a, b, b.len()) + a.subrange(b.len() as int, n as int),
    decreases n,
{
    if n > b.len() {
        lemma_zip_rounds_tail_a(a, b, (n - 1) as nat);
        assert(zip_rounds(a, b, n) =~= zip_rounds(a, b, b.len()) + a.subrange(
            b.len() as int,
            n as int,
        ));
    } else {
        assert(zip_rounds(a, b, n) =~= zip_rounds(a, b, b.len()) + a.subrange(
            b.len() as int,
            n as int,
        ));
    }
}

proof fn lemma_zip_rounds_tail_b<T>(a: Seq<T>, b: Seq<T>, n: nat)
    requires
        a.len() <= n <= b.len(),
    ensures
        zip_rounds(a, b, n) == zip_rounds(a, b, a.len()) + b.subrange(a.len() as int, n as int),
    decreases n,
{
    if n > a.len() {
        lemma_zip_rounds_tail_b(a, b, (n - 1) as nat);
        assert(zip_rounds(a, b, n) =~= zip_rounds(a, b, a.len()) + b.subrange(
            a.len() as int,
            n as int,
        ));
    } else {
        assert(zip_rounds(a, b, n) =~= zip_rounds(a, b, a.len()) + b.subrange(
            a.len() as int,
            n as int,
        ));
    }
}

/// Zipping loses nothing and adds nothing: the result is as long as both
/// arrays together; while both have elements it takes one of each in turn,
/// `a[i]` then `b[i]`; after the shorter one runs out, the rest of the
/// longer one follows, all of it and in order.
pub proof fn lemma_zip_keeps_everything<T>(a: Seq<T>, b: Seq<T>)
    ensures
        spec_zip(a, b).len() == a.len() + b.len(),
        forall|j: int|
            0 <= j < 2 * a.len() && j < 2 * b.len() ==> #[trigger] spec_zip(a, b)[j] == if j % 2
                == 0 {
                a[j / 2]
            } else {
                b[j / 2]
            },
        a.len() >= b.len() ==> spec_zip(a, b).skip(2 * b.len() as int) == a.skip(b.len() as int),
        b.len() >= a.len() ==> spec_zip(a, b).skip(2 * a.len() as int) == b.skip(a.len() as int),
{
    let z = spec_zip(a, b);
    if a.len() >= b.len() {
        lemma_zip_rounds_even(a, b, b.len());
        lemma_zip_rounds_tail_a(a, b, a.len());
        let p = zip_rounds(a, b, b.len());
        assert(z == p + a.subrange(b.len() as int, a.len() as int));
        assert(z.skip(2 * b.len() as int) =~= a.skip(b.len() as int));
        assert forall|j: int| 0 <= j < 2 * a.len() && j < 2 * b.len() implies #[trigger] z[j]
            == if j % 2 == 0 {
            a[j / 2]
        } else {
            b[j / 2]
        } by {
            assert(z[j] == p[j]);
        }
        if b.len() >= a.len() {
            assert(z.skip(2 * a.len() as int) =~= b.skip(a.len() as int));
        }
    } else {
        lemma_zip_rounds_even(a, b, a.len());
        lemma_zip_rounds_tail_b(a, b, b.len());
        let p = zip_rounds(a, b, a.len());
        assert(z == p + b.subrange(a.len() as int, b.len() as int));
        assert(z.skip(2 * a.len() as int) =~= b.skip(a.len() as int));
        assert forall|j: int| 0 <= j < 2 * a.len() && j < 2 * b.len() implies #[trigger] z[j]
            == if j % 2 == 0 {
            a[j / 2]
        } else {
            b[j / 2]
        } by {
            assert(z[j] == p[j]);
        }
    }
}

/// Unzipping an array and zipping the two halves gives back the array.
pub proof fn lemma_zip_unzip<T>(s: Seq<T>)
    ensures
        spec_zip(evens(s), odds(s)) == s,
{
    let a = evens(s);
    let b = odds(s);
    let m = b.len();
    lemma_zip_rounds_even(a, b, m);
    let z = spec_zip(a, b);
    if a.len() == b.len() {
        assert(z =~= s) by {
            assert forall|j: int| 0 <= j < s.len() implies z[j] == s[j] by {
                if j % 2 == 0 {
                    assert(a[j / 2] == s[2 * (j / 2)]);
                } else {
                    assert(b[j / 2] == s[2 * (j / 2) + 1]);
                }
            }
        }
    } else {
        assert(a.len() == m + 1);
        let p = zip_rounds(a, b, m);
        assert(z == p.push(a[m as int]));
        assert(z =~= s) by {
            assert forall|j: int| 0 <= j < s.len() implies z[j] == s[j] by {
                if j < 2 * m {
                    if j % 2 == 0 {
                        assert(a[j / 2] == s[2 * (j / 2)]);
                    } else {
                        assert(b[j / 2] == s[2 * (j / 2) + 1]);
                    }
                } else {
                    assert(j == 2 * m);
                    assert(a[m as int] == s[2 * (m as int)]);
                }
            }
        }
    }
}

// ---------------------------------------------------------------------------
// resizing and repeating
// ---------------------------------------------------------------------------

/// `s` cut or padded with `fill` to length `n`.
pub open spec fn spec_resize<T>(s: Seq<T>, n: nat, fill: T) -> Seq<T> {
    if n <= s.len() {
        s.take(n as int)
    } else {
        s + Seq::new((n - s.len()) as nat, |i: int| fill)
    }
}

/// Resizes an array in place (the `resize` op): shrinking drops the tail,
/// growing adds copies of `fill`.
pub fn resize<T: Copy>(arr: &mut Vec<T>, n: usize, fill: T)
    ensures
        final(arr)@ == spec_resize(old(arr)@, n as nat, fill),
{
    if n <= arr.len() {
        arr.truncate(n);
    } else {
        let ghost start = arr@;
        while arr.len() < n
            invariant
                start.len() <= arr@.len() <= n,
                arr@ == start + Seq::new((arr@.len() - start.len()) as nat, |i: int| fill),
            decreases n - arr@.len(),
        {
            arr.push(fill);
            assert(arr@ =~= start + Seq::new((arr@.len() - start.len()) as nat, |i: int| fill));
        }
    }
    assert(final(arr)@ =~= spec_resize(old(arr)@, n as nat, fill));
}

/// Resizing keeps what fits: the result has exactly `n` elements, the first
/// ones those of `s` as far as `s` reaches, the rest copies of `fill`; and
/// resizing to a length and back keeps the shorter prefix.
pub proof fn lemma_resize_keeps_prefix<T>(s: Seq<T>, n: nat, m: nat, fill: T)
    ensures
        spec_resize(s, n, fill).len() == n,
        forall|i: int| 0 <= i < n && i < s.len() ==> #[trigger] spec_resize(s, n, fill)[i] == s[i],
        forall|i: int| s.len() <= i < n ==> #[trigger] spec_resize(s, n, fill)[i] == fill,
        m <= n ==> spec_resize(spec_resize(s, n, fill), m, fill) == spec_resize(s, m, fill),
{
    if m <= n {
        assert(spec_resize(spec_resize(s, n, fill), m, fill) =~= spec_resize(s, m, fill));
    }
}

/// `s` repeated `n` times.
pub open spec fn spec_repeat<T>(s: Seq<T>, n: nat) -> Seq<T> {
    Seq::new(s.len() * n, |i: int| s[i % (s.len() as int)])
}

/// Repeating once more appends one more copy: `s` repeated `n + 1` times is
/// `s` repeated `n` times followed by `s`, and repeating zero times gives
/// nothing.
pub proof fn lemma_repeat_once_more<T>(s: Seq<T>, n: nat)
    ensures
        spec_repeat(s, 0) == Seq::<T>::empty(),
        spec_repeat(s, n + 1) == spec_repeat(s, n) + s,
{
    assert(spec_repeat(s, 0) =~= Seq::<T>::empty());
    let l = s.len() as int;
    if l > 0 {
        assert forall|i: int| 0 <= i < l * (n + 1) implies #[trigger] spec_repeat(s, n + 1)[i] == (
        spec_repeat(s, n) + s)[i] by {
            assert(l * (n + 1) == l * n + l) by (nonlinear_arith);
            if i < l * n {
            } else {
                let k = i - l * n;
                assert(0 <= k < l);
                assert(i % l == k) by {
                    vstd::arithmetic::div_mod::lemma_fundamental_div_mod_converse(i, l, n as int, k);
                }
            }
        }
        assert(l * (n + 1) == l * n + l) by (nonlinear_arith);
        assert(spec_repeat(s, n + 1) =~= spec_repeat(s, n) + s);
    } else {
        assert(spec_repeat(s, n + 1) =~= spec_repeat(s, n) + s);
    }
}

/// An array repeated `n` times (the `repeat` op, on targets).
pub fn repeat<T: Copy>(s: &Vec<T>, n: usize) -> (out: Vec<T>)
    requires
        s@.len() * n <= usize::MAX,
    ensures
        out@ == spec_repeat(s@, n as nat),
{
    let len = s.len();
    let mut out: Vec<T> = Vec::new();
    let mut r: usize = 0;
    while r < n
        invariant
            len == s@.len(),
            r <= n,
            s@.len() * n <= usize::MAX,
            out@ =~= spec_repeat(s@, r as nat),
        decreases n - r,
    {
        let ghost before = out@;
        let mut j: usize = 0;
        while j < len
            invariant
                len == s@.len(),
                j <= len,
                r < n,
                before == spec_repeat(s@, r as nat),
                out@ == before + s@.take(j as int),
            decreases len - j,
        {
            out.push(s[j]);
            j = j + 1;
            assert(out@ =~= before + s@.take(j as int));
        }
        proof {
            assert(s@.take(len as int) =~= s@);
            lemma_repeat_once_more(s@, r as nat);
        }
        r = r + 1;
    }
    out
}

// ---------------------------------------------------------------------------
// indexed inputs
// ---------------------------------------------------------------------------

/// The slot an input lands in: its white hole's input number, with negative
/// numbers counting as 0.
pub open spec fn slot_of(lt: i8) -> nat {
    if lt < 0 {
        0
    } else {
        lt as nat
    }
}

/// Inputs placed in slots by input number, later inputs replacing earlier
/// ones in the same slot; the slots run up to the highest number used.
pub open spec fn spec_collect_slots<T>(inputs: Seq<(i8, T)>) -> Seq<Option<T>>
    decreases inputs.len(),
{
    if inputs.len() == 0 {
        Seq::empty()
    } else {
        let c = spec_collect_slots(inputs.drop_last());
        let k = slot_of(inputs.last().0);
        let grown = if k >= c.len() {
            c + Seq::new((k + 1 - c.len()) as nat, |i: int| None)
        } else {
            c
        };
        grown.update(k as int, Some(inputs.last().1))
    }
}

/// The filled slots' values, in slot order.
pub open spec fn spec_present<T>(slots: Seq<Option<T>>) -> Seq<T>
    decreases slots.len(),
{
    if slots.len() == 0 {
        Seq::empty()
    } else {
        let p = spec_present(slots.drop_last());
        match slots.last() {
            Some(v) => p.push(v),
            None => p,
        }
    }
}

/// No input after input `i` names the same slot.
pub open spec fn last_in_slot<T>(inputs: Seq<(i8, T)>, i: int) -> bool {
    forall|j: int| i < j < inputs.len() ==> slot_of(inputs[j].0) != slot_of(inputs[i].0)
}

proof fn lemma_collect_step<T>(inputs: Seq<(i8, T)>)
    requires
        inputs.len() > 0,
    ensures
        ({
            let cp = spec_collect_slots(inputs.drop_last());
            let c = spec_collect_slots(inputs);
            let k = slot_of(inputs.last().0);
            &&& c.len() == (if k >= cp.len() {
                k + 1
            } else {
                cp.len()
            })
            &&& c[k as int] == Some(inputs.last().1)
            &&& forall|kk: int|
                0 <= kk < c.len() && kk != k ==> #[trigger] c[kk] == (if kk < cp.len() {
                    cp[kk]
                } else {
                    None
                })
        }),
{
}

proof fn lemma_collect_slots_bound<T>(inputs: Seq<(i8, T)>)
    ensures
        forall|i: int|
            0 <= i < inputs.len() ==> slot_of(#[trigger] inputs[i].0) < spec_collect_slots(
                inputs,
            ).len(),
        spec_collect_slots(inputs).len() == 0 || exists|i: int|
            0 <= i < inputs.len() && slot_of(#[trigger] inputs[i].0) + 1 == spec_collect_slots(
                inputs,
            ).len(),
    decreases inputs.len(),
{
    if inputs.len() > 0 {
        let n = inputs.len() - 1;
        let p = inputs.drop_last();
        lemma_collect_slots_bound(p);
        lemma_collect_step(inputs);
        let cp = spec_collect_slots(p);
        let c = spec_collect_slots(inputs);
        let k = slot_of(inputs.last().0);
        assert(inputs[n] == inputs.last());
        assert forall|i: int| 0 <= i < inputs.len() implies slot_of(#[trigger] inputs[i].0)
            < c.len() by {
            if i < n {
                assert(inputs[i] == p[i]);
                assert(slot_of(p[i].0) < cp.len());
            }
        }
        if k < cp.len() {
            let i = choose|i: int| 0 <= i < p.len() && slot_of(#[trigger] p[i].0) + 1 == cp.len();
            assert(inputs[i] == p[i]);
            assert(slot_of(inputs[i].0) + 1 == c.len());
        } else {
            assert(slot_of(inputs[n].0) + 1 == c.len());
        }
    }
}

proof fn lemma_collect_slots_empty<T>(inputs: Seq<(i8, T)>)
    ensures
        forall|k: int|
            0 <= k < spec_collect_slots(inputs).len() ==> (#[trigger] spec_collect_slots(inputs)[k]
                is None <==> forall|i: int| 0 <= i < inputs.len() ==> slot_of(inputs[i].0) != k),
    decreases inputs.len(),
{
    if inputs.len() > 0 {
        let n = inputs.len() - 1;
        let p = inputs.drop_last();
        lemma_collect_slots_empty(p);
        lemma_collect_slots_bound(p);
        lemma_collect_step(inputs);
        let cp = spec_collect_slots(p);
        let c = spec_collect_slots(inputs);
        let k = slot_of(inputs.last().0);
        assert(inputs[n] == inputs.last());
        assert forall|kk: int| 0 <= kk < c.len() implies (#[trigger] c[kk] is None <==> forall|i: int|
            0 <= i < inputs.len() ==> slot_of(inputs[i].0) != kk) by {
            if kk != k {
                if kk < cp.len() && !(cp[kk] is None) {
                    let i = choose|i: int| 0 <= i < p.len() && !(slot_of(p[i].0) != kk);
                    assert(inputs[i] == p[i]);
                } else {
                    assert forall|i: int| 0 <= i < inputs.len() implies slot_of(inputs[i].0)
                        != kk by {
                        if i < n {
                            assert(inputs[i] == p[i]);
                            assert(slot_of(p[i].0) < cp.len());
                        }
                    }
                }
            } else {
                assert(slot_of(inputs[n].0) == kk);
            }
        }
    }
}

proof fn lemma_collect_slots_last<T>(inputs: Seq<(i8, T)>)
    ensures
        forall|i: int|
            0 <= i < inputs.len() && last_in_slot(inputs, i) ==> spec_collect_slots(
                inputs,
            )[slot_of(#[trigger] inputs[i].0) as int] == Some(inputs[i].1),
    decreases inputs.len(),
{
    if inputs.len() > 0 {
        let n = inputs.len() - 1;
        let p = inputs.drop_last();
        lemma_collect_slots_last(p);
        lemma_collect_slots_bound(p);
        lemma_collect_step(inputs);
        let cp = spec_collect_slots(p);
        let c = spec_collect_slots(inputs);
        assert(inputs[n] == inputs.last());
        assert forall|i: int| 0 <= i < inputs.len() && last_in_slot(inputs, i) implies c[slot_of(
            #[trigger] inputs[i].0,
        ) as int] == Some(inputs[i].1) by {
            if i < n {
                assert(inputs[i] == p[i]);
                assert(slot_of(inputs[n].0) != slot_of(inputs[i].0));
                assert(last_in_slot(p, i)) by {
                    assert forall|j: int| i < j < p.len() implies slot_of(p[j].0) != slot_of(
                        p[i].0,
                    ) by {
                        assert(inputs[j] == p[j]);
                    }
                }
                assert(slot_of(p[i].0) < cp.len());
            }
        }
    }
}

/// Collecting inputs into slots loses none and invents none: every input's
/// slot is there, a slot is empty exactly when no input names it, the last
/// input naming a slot is the one it holds, and there are no slots past the
/// highest one named.
pub proof fn lemma_collect_slots_last_wins<T>(inputs: Seq<(i8, T)>)
    ensures
        forall|i: int|
            0 <= i < inputs.len() ==> slot_of(#[trigger] inputs[i].0) < spec_collect_slots(
                inputs,
            ).len(),
        forall|k: int|
            0 <= k < spec_collect_slots(inputs).len() ==> (#[trigger] spec_collect_slots(inputs)[k]
                is None <==> forall|i: int| 0 <= i < inputs.len() ==> slot_of(inputs[i].0) != k),
        forall|i: int|
            0 <= i < inputs.len() && last_in_slot(inputs, i) ==> spec_collect_slots(
                inputs,
            )[slot_of(#[trigger] inputs[i].0) as int] == Some(inputs[i].1),
        spec_collect_slots(inputs).len() == 0 || exists|i: int|
            0 <= i < inputs.len() && slot_of(#[trigger] inputs[i].0) + 1 == spec_collect_slots(
                inputs,
            ).len(),
{
    lemma_collect_slots_bound(inputs);
    lemma_collect_slots_empty(inputs);
    lemma_collect_slots_last(inputs);
}

/// The values of the filled slots are exactly the filled slots, in slot
/// order, with nothing left out and nothing added.
pub proof fn lemma_present_filled<T>(slots: Seq<Option<T>>)
    ensures
        spec_present(slots) == slots.filter(|o: Option<T>| o is Some).map_values(
            |o: Option<T>| o->0,
        ),
    decreases slots.len(),
{
    reveal(Seq::filter);
    if slots.len() > 0 {
        lemma_present_filled(slots.drop_last());
        let f = slots.drop_last().filter(|o: Option<T>| o is Some);
        if slots.last() is Some {
            assert(f.push(slots.last()).map_values(|o: Option<T>| o->0) =~= f.map_values(
                |o: Option<T>| o->0,
            ).push(slots.last()->0));
        }
    }
}

/// Places inputs in slots by their input number (negative numbers count as
/// 0), a later input replacing an earlier one in the same slot. This is how
/// ops such as `collect`, `seq()` and `+` order their inputs.
pub fn collect_slots<T: Copy>(inputs: &Vec<(i8, T)>) -> (slots: Vec<Option<T>>)
    ensures
        slots@ == spec_collect_slots(inputs@),
{
    let mut slots: Vec<Option<T>> = Vec::new();
    let mut i: usize = 0;
    while i < inputs.len()
        invariant
            i <= inputs@.len(),
            slots@ == spec_collect_slots(inputs@.take(i as int)),
        decreases inputs@.len() - i,
    {
        let (lt, v) = inputs[i];
        let ghost before = slots@;
        let k: usize = if lt < 0 {
            0
        } else {
            lt as usize
        };
        assert(k <= 127);
        if k >= slots.len() {
            while slots.len() < k + 1
                invariant
                    k <= 127,
                    before.len() <= slots@.len() <= k + 1,
                    slots@ == before + Seq::new((slots@.len() - before.len()) as nat, |j: int| None::<T>),
                decreases k + 1 - slots@.len(),
            {
                slots.push(None);
                assert(slots@ =~= before + Seq::new((slots@.len() - before.len()) as nat, |j: int| None::<T>));
            }
        }
        slots.set(k, Some(v));
        proof {
            assert(inputs@.take(i + 1).drop_last() =~= inputs@.take(i as int));
            assert(slots@ =~= spec_collect_slots(inputs@.take(i + 1)));
        }
        i = i + 1;
    }
    assert(inputs@.take(i as int) =~= inputs@);
    slots
}

/// The values of the filled slots, in slot order.
pub fn present<T: Copy>(slots: &Vec<Option<T>>) -> (out: Vec<T>)
    ensures
        out@ == spec_present(slots@),
{
    let mut out: Vec<T> = Vec::new();
    let mut i: usize = 0;
    while i < slots.len()
        invariant
            i <= slots@.len(),
            out@ == spec_present(slots@.take(i as int)),
        decreases slots@.len() - i,
    {
        proof {
            assert(slots@.take(i + 1).drop_last() =~= slots@.take(i as int));
        }
        match slots[i] {
            Some(v) => out.push(v),
            None => {},
        }
        i = i + 1;
    }
    assert(slots@.take(i as int) =~= slots@);
    out
}

// ---------------------------------------------------------------------------
// splitting and writing
// ---------------------------------------------------------------------------

/// Splits an array at `n` (the `slice` op): when `n` is within the array it
/// keeps its first `n` items and the rest comes back; otherwise nothing
/// changes and nothing comes back.
pub fn split_at_len<T>(arr: &mut Vec<T>, n: usize) -> (tail: Option<Vec<T>>)
    ensures
        match tail {
            Some(t) => {
                &&& n <= old(arr)@.len()
                &&& final(arr)@ == old(arr)@.take(n as int)
                &&& t@ == old(arr)@.skip(n as int)
            },
            None => n > old(arr)@.len() && final(arr)@ == old(arr)@,
        },
{
    if n <= arr.len() {
        let t = arr.split_off(n);
        assert(arr@ =~= old(arr)@.take(n as int));
        assert(t@ =~= old(arr)@.skip(n as int));
        Some(t)
    } else {
        None
    }
}

/// Writes `v` at index `i` when the array has that index (the `set` op);
/// tells whether it did.
pub fn set_at<T>(arr: &mut Vec<T>, i: usize, v: T) -> (done: bool)
    ensures
        done == (i < old(arr)@.len()),
        final(arr)@ == (if done {
            old(arr)@.update(i as int, v)
        } else {
            old(arr)@
        }),
{
    if i < arr.len() {
        arr.set(i, v);
        true
    } else {
        false
    }
}

/// Makes room for slot `v` in a cache indexed by vertex count: a cache too
/// short for it grows with empty slots up to `v + 1` entries; what it held
/// stays where it was.
pub fn make_slot<T>(cache: &mut Vec<Option<T>>, v: usize)
    requires
        v < usize::MAX,
    ensures
        final(cache)@.len() == (if old(cache)@.len() <= v {
            v + 1
        } else {
            old(cache)@.len() as int
        }),
        forall|i: int| 0 <= i < old(cache)@.len() ==> #[trigger] final(cache)@[i] == old(cache)@[i],
        forall|i: int| old(cache)@.len() <= i < final(cache)@.len() ==> #[trigger] final(cache)@[i] is None,
{
    let ghost start = cache@;
    while cache.len() <= v
        invariant
            v < usize::MAX,
            start.len() <= cache@.len(),
            start.len() <= v ==> cache@.len() <= v + 1,
            start.len() > v ==> cache@.len() == start.len(),
            forall|i: int| 0 <= i < start.len() ==> #[trigger] cache@[i] == start[i],
            forall|i: int| start.len() <= i < cache@.len() ==> #[trigger] cache@[i] is None,
        decreases v + 1 - cache@.len(),
    {
        cache.push(None);
    }
}

} // verus!
