use vstd::prelude::*;

use crate::fn_resource::ParamMode;

verus! {

/// The largest number of parameters an adapter takes.
pub const MAX_ARITY: usize = 8;

/// The mode a bit of an assignment's index chooses: shared for 0.
pub open spec fn mode_of_bit(b: nat) -> ParamMode {
    if b == 0 {
        ParamMode::Shared
    } else {
        ParamMode::Exclusive
    }
}

/// The modes of `n` parameters that `index` chooses: parameter `i` is
/// exclusive exactly when bit `i` of `index` is set.
pub open spec fn assignment(index: nat, n: nat) -> Seq<ParamMode>
    decreases n,
{
    if n == 0 {
        Seq::empty()
    } else {
        seq![mode_of_bit(index % 2)] + assignment(index / 2, (n - 1) as nat)
    }
}

/// How many assignments there are for `n` parameters: two to the `n`.
pub open spec fn assignment_count(n: nat) -> nat
    decreases n,
{
    if n == 0 {
        1
    } else {
        2 * assignment_count((n - 1) as nat)
    }
}

/// The index whose assignment is `s`.
pub open spec fn index_of_modes(s: Seq<ParamMode>) -> nat
    decreases s.len(),
{
    if s.len() == 0 {
        0
    } else {
        (if s[0] == ParamMode::Shared {
            0nat
        } else {
            1nat
        }) + 2 * index_of_modes(s.drop_first())
    }
}

proof fn lemma_index_round_trip(s: Seq<ParamMode>)
    ensures
        index_of_modes(s) < assignment_count(s.len()),
        assignment(index_of_modes(s), s.len()) == s,
    decreases s.len(),
{
    if s.len() > 0 {
        let rest = s.drop_first();
        lemma_index_round_trip(rest);
        let b: nat = if s[0] == ParamMode::Shared {
            0
        } else {
            1
        };
        let r = index_of_modes(rest);
        let i = index_of_modes(s);
        assert(i == b + 2 * r);
        assert(i % 2 == b && i / 2 == r);
        assert(mode_of_bit(b) == s[0]);
        assert(assignment(i, s.len()) =~= seq![s[0]] + rest);
        assert(seq![s[0]] + rest =~= s);
    }
}

proof fn lemma_assignment_injective(i: nat, j: nat, n: nat)
    requires
        i < assignment_count(n),
        j < assignment_count(n),
        assignment(i, n) == assignment(j, n),
    ensures
        i == j,
    decreases n,
{
    if n > 0 {
        let m = (n - 1) as nat;
        assert(assignment(i, n)[0] == mode_of_bit(i % 2));
        assert(assignment(j, n)[0] == mode_of_bit(j % 2));
        assert(i % 2 == j % 2);
        assert(assignment(i, n).drop_first() =~= assignment(i / 2, m));
        assert(assignment(j, n).drop_first() =~= assignment(j / 2, m));
        lemma_assignment_injective(i / 2, j / 2, m);
    }
}

/// Every list of `n` parameter modes is the assignment of exactly one index
/// below two to the `n`: enumerating the indices yields each shape of a
/// function once, none twice and none left out.
pub proof fn lemma_assignments_cover(s: Seq<ParamMode>)
    ensures
        index_of_modes(s) < assignment_count(s.len()),
        assignment(index_of_modes(s), s.len()) == s,
        forall|i: nat|
            i < assignment_count(s.len()) && #[trigger] assignment(i, s.len()) == s ==> i
                == index_of_modes(s),
{
    lemma_index_round_trip(s);
    assert forall|i: nat|
        i < assignment_count(s.len()) && #[trigger] assignment(i, s.len()) == s implies i
            == index_of_modes(s) by {
        lemma_assignment_injective(i, index_of_modes(s), s.len());
    }
}

proof fn lemma_count_bound(k: nat)
    requires
        k <= 8,
    ensures
        assignment_count(k) <= 256,
        assignment_count(k) >= 1,
    decreases 8 - k,
{
    if k < 8 {
        lemma_count_bound(k + 1);
        assert(assignment_count(k + 1) == 2 * assignment_count(k));
    } else {
        reveal_with_fuel(assignment_count, 9);
    }
}

/// The modes of `n` parameters that `index` chooses.
pub fn mode_assignment(n: usize, index: usize) -> (r: Vec<ParamMode>)
    ensures
        r@ == assignment(index as nat, n as nat),
{
    let mut r: Vec<ParamMode> = Vec::new();
    let mut m: usize = index;
    let mut i: usize = 0;
    while i < n
        invariant
            i <= n,
            r@ + assignment(m as nat, (n - i) as nat) == assignment(index as nat, n as nat),
        decreases n - i,
    {
        let b = if m % 2 == 0 {
            ParamMode::Shared
        } else {
            ParamMode::Exclusive
        };
        proof {
            let rest = assignment((m / 2) as nat, (n - i - 1) as nat);
            assert(assignment(m as nat, (n - i) as nat) == seq![b] + rest);
            assert(r@.push(b) + rest =~= r@ + (seq![b] + rest));
        }
        r.push(b);
        m = m / 2;
        i += 1;
    }
    proof {
        assert(r@ + assignment(m as nat, 0) =~= r@);
    }
    r
}

/// Every assignment of modes to `n` parameters, the one of index `i` at
/// position `i`.
pub fn mode_assignments(n: usize) -> (r: Vec<Vec<ParamMode>>)
    requires
        1 <= n <= MAX_ARITY,
    ensures
        r@.len() == assignment_count(n as nat),
        forall|i: int| 0 <= i < r@.len() ==> (#[trigger] r@[i])@ == assignment(i as nat, n as nat),
{
    let mut total: usize = 1;
    let mut k: usize = 0;
    while k < n
        invariant
            k <= n <= MAX_ARITY,
            total == assignment_count(k as nat),
        decreases n - k,
    {
        proof {
            lemma_count_bound((k + 1) as nat);
        }
        total = total * 2;
        k += 1;
    }
    let mut r: Vec<Vec<ParamMode>> = Vec::new();
    let mut index: usize = 0;
    while index < total
        invariant
            index <= total,
            total == assignment_count(n as nat),
            r@.len() == index,
            forall|i: int| 0 <= i < index ==> (#[trigger] r@[i])@ == assignment(i as nat, n as nat),
        decreases total - index,
    {
        r.push(mode_assignment(n, index));
        index += 1;
    }
    r
}

} // verus!
