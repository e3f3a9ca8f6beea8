//! Index choices: every way to assign one inner vertex to each outer edge.
//!
//! With `m` inner vertices and `n` outer edges there are `m^n` choices, each a
//! tuple of `n` vertex indices below `m`. They are listed in lexicographic
//! order, the last component varying fastest, so the choice at position `k`
//! spells `k` in base `m` with `n` digits.

use itertools::Itertools;
use vstd::arithmetic::div_mod::{
    lemma_div_denominator, lemma_fundamental_div_mod, lemma_fundamental_div_mod_converse,
    lemma_mod_bound, lemma_multiply_divide_lt,
};
use vstd::arithmetic::power::{lemma_pow_increases, lemma_pow_positive, pow};
use vstd::prelude::*;

verus! {

/// The largest number of choices, and the largest number of components of a
/// choice, that the table of choices is built for.
pub const MAX_CHOICES: usize = 0x10_0000;

/// Component `i` of the choice at position `k`: digit `i`, counted from the
/// most significant, of `k` written in base `m` with `n` digits.
pub open spec fn digit(m: int, n: int, k: int, i: int) -> int {
    (k / pow(m, (n - 1 - i) as nat)) % m
}

/// Whether `table` lists all choices of `n` indices below `m`, in
/// lexicographic order.
pub open spec fn is_choice_table(table: Seq<Seq<usize>>, m: nat, n: nat) -> bool {
    &&& table.len() == pow(m as int, n)
    &&& forall|k: int| 0 <= k < table.len() ==> (#[trigger] table[k]).len() == n
    &&& forall|k: int, i: int|
        0 <= k < table.len() && 0 <= i < n ==> #[trigger] table[k][i] == digit(
            m as int,
            n as int,
            k,
            i,
        )
}

/// Whether the table for `m` and `n` is within the limits it is built for.
pub open spec fn enumerable(m: nat, n: nat) -> bool {
    n <= MAX_CHOICES && pow(m as int, n) <= MAX_CHOICES
}

/// Calls `itertools::repeat_n` and `Itertools::multi_cartesian_product` on
/// `n` copies of the range `0..m`, and collects what comes out with
/// `Itertools::collect_vec`. The product starts with the first item of every
/// range and advances the rightmost range that is not exhausted, resetting
/// those to its right; of no ranges it is the one empty tuple, and with an
/// empty range among them it is empty. That is the list of all `n`-tuples
/// below `m` in lexicographic order, which the contract states. The limits
/// keep the vectors that are allocated within what a vector can hold.
#[verifier::external_body]
fn cartesian_power(m: usize, n: usize) -> (table: Vec<Vec<usize>>)
    requires
        enumerable(m as nat, n as nat),
    ensures
        is_choice_table(table.deep_view(), m as nat, n as nat),
{
    itertools::repeat_n(0..m, n).multi_cartesian_product().collect_vec()
}

/// The number of choices of `n` indices below `m`, or `None` where the table
/// would exceed its limits.
pub fn count_choices(m: usize, n: usize) -> (count: Option<usize>)
    ensures
        count.is_some() == enumerable(m as nat, n as nat),
        count matches Some(c) ==> c == pow(m as int, n as nat),
{
    if n > MAX_CHOICES {
        return None;
    }
    let mut acc: usize = 1;
    let mut i: usize = 0;
    proof {
        reveal_with_fuel(pow, 1);
    }
    while i < n
        invariant
            i <= n <= MAX_CHOICES,
            acc == pow(m as int, i as nat),
            acc <= MAX_CHOICES,
        decreases n - i,
    {
        proof {
            reveal_with_fuel(pow, 2);
            assert(pow(m as int, (i + 1) as nat) == m * pow(m as int, i as nat));
            assert(m * acc == acc * m) by (nonlinear_arith);
        }
        let next = acc.checked_mul(m);
        let over = match next {
            Some(v) => v > MAX_CHOICES,
            None => true,
        };
        if over {
            proof {
                assert(pow(m as int, (i + 1) as nat) > MAX_CHOICES);
                if m == 0 {
                    assert(pow(m as int, (i + 1) as nat) == 0);
                }
                lemma_pow_increases(m as nat, (i + 1) as nat, n as nat);
            }
            return None;
        }
        acc = next.unwrap();
        i = i + 1;
    }
    Some(acc)
}

/// All choices of `n` indices below `m`, in lexicographic order, or `None`
/// where the table would exceed its limits.
pub fn index_choices(m: usize, n: usize) -> (table: Option<Vec<Vec<usize>>>)
    ensures
        table.is_some() == enumerable(m as nat, n as nat),
        table matches Some(t) ==> is_choice_table(t.deep_view(), m as nat, n as nat),
{
    match count_choices(m, n) {
        Some(_) => Some(cartesian_power(m, n)),
        None => None,
    }
}

/// Whether `choice` assigns one of `m` vertices to each of `n` edges.
pub open spec fn is_choice(choice: Seq<usize>, m: nat, n: nat) -> bool {
    &&& choice.len() == n
    &&& forall|i: int| 0 <= i < n ==> #[trigger] choice[i] < m
}

/// The number that a choice spells in base `m`, its first component the most
/// significant digit.
pub open spec fn position(choice: Seq<usize>, m: int) -> int
    decreases choice.len(),
{
    if choice.len() == 0 {
        0
    } else {
        position(choice.drop_last(), m) * m + choice.last()
    }
}

proof fn lemma_pow_step(m: int, e: nat)
    ensures
        pow(m, e + 1) == m * pow(m, e),
{
    reveal_with_fuel(pow, 2);
}

/// All digits but the last of `k` are the digits of `k / m`.
proof fn lemma_digit_shift(m: int, n: int, k: int, i: int)
    requires
        0 < m,
        0 <= k,
        0 <= i < n - 1,
    ensures
        digit(m, n, k, i) == digit(m, n - 1, k / m, i),
{
    let q = pow(m, (n - 2 - i) as nat);
    lemma_pow_step(m, (n - 2 - i) as nat);
    assert(pow(m, (n - 1 - i) as nat) == m * q);
    lemma_pow_positive(m, (n - 2 - i) as nat);
    lemma_div_denominator(k, m, q);
}

/// The last digit of `k` is its remainder by `m`.
proof fn lemma_digit_last(m: int, n: int, k: int)
    requires
        0 < n,
    ensures
        digit(m, n, k, n - 1) == k % m,
{
    reveal_with_fuel(pow, 1);
    assert(pow(m, 0) == 1);
}

/// A sequence that holds the digits of `k` spells `k`.
proof fn lemma_spells(s: Seq<usize>, m: int, n: nat, k: int)
    requires
        0 <= k < pow(m, n),
        0 <= m,
        s.len() == n,
        forall|i: int| 0 <= i < n ==> #[trigger] s[i] == digit(m, n as int, k, i),
    ensures
        position(s, m) == k,
    decreases n,
{
    if n == 0 {
        reveal_with_fuel(pow, 1);
    } else {
        lemma_pow_step(m, (n - 1) as nat);
        if m == 0 {
            assert(pow(m, n) == 0) by (nonlinear_arith)
                requires
                    pow(m, n) == m * pow(m, (n - 1) as nat),
                    m == 0,
            ;
        } else {
            let rest = s.drop_last();
            assert forall|i: int| 0 <= i < n - 1 implies #[trigger] rest[i] == digit(
                m,
                n - 1,
                k / m,
                i,
            ) by {
                assert(rest[i] == s[i]);
                lemma_digit_shift(m, n as int, k, i);
            }
            lemma_multiply_divide_lt(k, m, pow(m, (n - 1) as nat));
            assert(0 <= k / m) by (nonlinear_arith)
                requires
                    0 <= k,
                    0 < m,
            ;
            lemma_spells(rest, m, (n - 1) as nat, k / m);
            lemma_digit_last(m, n as int, k);
            assert(s.last() == k % m);
            lemma_fundamental_div_mod(k, m);
            assert(position(s, m) == (k / m) * m + k % m);
            assert((k / m) * m == m * (k / m)) by (nonlinear_arith);
        }
    }
}

/// A choice spells a number below `m^n`.
proof fn lemma_position_bounds(choice: Seq<usize>, m: nat, n: nat)
    requires
        is_choice(choice, m, n),
    ensures
        0 <= position(choice, m as int) < pow(m as int, n),
    decreases n,
{
    if n == 0 {
        reveal_with_fuel(pow, 1);
    } else {
        let rest = choice.drop_last();
        assert(is_choice(rest, m, (n - 1) as nat)) by {
            assert forall|i: int| 0 <= i < n - 1 implies #[trigger] rest[i] < m by {
                assert(rest[i] == choice[i]);
            }
        }
        lemma_position_bounds(rest, m, (n - 1) as nat);
        lemma_pow_step(m as int, (n - 1) as nat);
        let p = position(rest, m as int);
        let q = pow(m as int, (n - 1) as nat);
        let d = choice.last() as int;
        assert(0 <= d < m);
        assert(0 <= p * m + d < m * q) by (nonlinear_arith)
            requires
                0 <= p < q,
                0 <= d < m,
        ;
    }
}

/// The digits of the number that a choice spells are its components.
proof fn lemma_digit_of_position(choice: Seq<usize>, m: nat, n: nat, i: int)
    requires
        is_choice(choice, m, n),
        0 <= i < n,
    ensures
        digit(m as int, n as int, position(choice, m as int), i) == choice[i],
    decreases n,
{
    let rest = choice.drop_last();
    let p = position(rest, m as int);
    let d = choice.last() as int;
    let k = position(choice, m as int);
    assert(0 <= d < m);
    assert(is_choice(rest, m, (n - 1) as nat)) by {
        assert forall|j: int| 0 <= j < n - 1 implies #[trigger] rest[j] < m by {
            assert(rest[j] == choice[j]);
        }
    }
    lemma_position_bounds(rest, m, (n - 1) as nat);
    assert(0 <= p * m) by (nonlinear_arith)
        requires
            0 <= p,
            0 <= m,
    ;
    lemma_fundamental_div_mod_converse(k, m as int, p, d);
    if i == n - 1 {
        lemma_digit_last(m as int, n as int, k);
    } else {
        lemma_digit_shift(m as int, n as int, k, i);
        lemma_digit_of_position(rest, m, (n - 1) as nat, i);
        assert(rest[i] == choice[i]);
    }
}

/// Every entry of a table of choices is a choice: each component is the
/// index of an inner vertex.
pub proof fn lemma_entries_are_choices(table: Seq<Seq<usize>>, m: nat, n: nat, k: int)
    requires
        is_choice_table(table, m, n),
        0 <= k < table.len(),
    ensures
        is_choice(table[k], m, n),
{
    assert forall|i: int| 0 <= i < n implies #[trigger] table[k][i] < m by {
        if m == 0 {
            lemma_pow_step(0, (n - 1) as nat);
            assert(pow(0, n) == 0) by (nonlinear_arith)
                requires
                    pow(0, n) == 0 * pow(0, (n - 1) as nat),
            ;
        } else {
            lemma_mod_bound(k / pow(m as int, (n - 1 - i) as nat), m as int);
        }
    }
}

/// The entry at position `k` of a table of choices spells `k`.
pub proof fn lemma_entry_spells_position(table: Seq<Seq<usize>>, m: nat, n: nat, k: int)
    requires
        is_choice_table(table, m, n),
        0 <= k < table.len(),
    ensures
        position(table[k], m as int) == k,
{
    lemma_spells(table[k], m as int, n, k);
}

/// No choice occurs twice in a table of choices.
pub proof fn lemma_choices_distinct(table: Seq<Seq<usize>>, m: nat, n: nat, j: int, k: int)
    requires
        is_choice_table(table, m, n),
        0 <= j < table.len(),
        0 <= k < table.len(),
        j != k,
    ensures
        table[j] != table[k],
{
    lemma_entry_spells_position(table, m, n, j);
    lemma_entry_spells_position(table, m, n, k);
}

/// Every choice occurs in a table of choices, at the position that it
/// spells.
pub proof fn lemma_choices_complete(table: Seq<Seq<usize>>, m: nat, n: nat, choice: Seq<usize>)
    requires
        is_choice_table(table, m, n),
        is_choice(choice, m, n),
    ensures
        0 <= position(choice, m as int) < table.len(),
        table[position(choice, m as int)] == choice,
{
    let k = position(choice, m as int);
    lemma_position_bounds(choice, m, n);
    assert forall|i: int| 0 <= i < n implies table[k][i] == #[trigger] choice[i] by {
        lemma_digit_of_position(choice, m, n, i);
    }
    assert(table[k] =~= choice);
}

/// There is one table of choices for given `m` and `n`: listing the choices
/// again gives the same table.
pub proof fn lemma_choice_table_unique(a: Seq<Seq<usize>>, b: Seq<Seq<usize>>, m: nat, n: nat)
    requires
        is_choice_table(a, m, n),
        is_choice_table(b, m, n),
    ensures
        a == b,
{
    assert forall|k: int| 0 <= k < a.len() implies a[k] == b[k] by {
        assert forall|i: int| 0 <= i < n implies a[k][i] == b[k][i] by {
            assert(a[k][i] == digit(m as int, n as int, k, i));
            assert(b[k][i] == digit(m as int, n as int, k, i));
        }
        assert(a[k] =~= b[k]);
    }
    assert(a =~= b);
}

} // verus!
