//! Waypoint labels: base-26 letter strings of one length per dataset.
use vstd::prelude::*;

use crate::dataset::Waypoint;
use crate::text::push_char;

verus! {

/// `t / 26`, rounded up.
pub open spec fn div26_up(t: nat) -> nat {
    if t % 26 == 0 {
        t / 26
    } else {
        t / 26 + 1
    }
}

/// Number of letters of the labels of a dataset of `total` waypoints: the
/// fewest with at least `total` labels of that length, and at least one.
pub open spec fn label_len(total: nat) -> nat
    decreases total,
{
    if total > 26 {
        1 + label_len(div26_up(total))
    } else {
        1
    }
}

proof fn lemma_label_len_bound(t: nat)
    ensures
        1 <= label_len(t) <= 1 + t / 26,
    decreases t,
{
    if t > 26 {
        let s = div26_up(t);
        lemma_label_len_bound(s);
        assert(1 + s / 26 <= t / 26);
    }
}

/// The capital letter with position `d` (0 for 'A').
pub open spec fn letter(d: nat) -> char {
    ((65 + d) as u8) as char
}

/// The last `len` base-26 digits of `n` as letters, most significant first.
pub open spec fn label_digits(n: nat, len: nat) -> Seq<char>
    decreases len,
{
    if len == 0 {
        Seq::empty()
    } else {
        label_digits(n / 26, (len - 1) as nat).push(letter(n % 26))
    }
}

/// The label of waypoint `n` in a dataset of `total` waypoints.
pub open spec fn label_of(n: nat, total: nat) -> Seq<char> {
    label_digits(n, label_len(total))
}

/// 26 to the power `l`.
pub open spec fn pow26(l: nat) -> nat
    decreases l,
{
    if l == 0 {
        1
    } else {
        26 * pow26((l - 1) as nat)
    }
}

proof fn lemma_label_capacity(t: nat)
    ensures
        t <= pow26(label_len(t)),
    decreases t,
{
    if t > 26 {
        let s = div26_up(t);
        lemma_label_capacity(s);
        assert(t <= 26 * s);
        assert(26 * s <= 26 * pow26(label_len(s))) by (nonlinear_arith)
            requires
                s <= pow26(label_len(s)),
        ;
    } else {
        assert(pow26(1) == 26) by {
            reveal_with_fuel(pow26, 2);
        }
    }
}

proof fn lemma_digits_injective(a: nat, b: nat, len: nat)
    requires
        a != b,
        a < pow26(len),
        b < pow26(len),
    ensures
        label_digits(a, len) != label_digits(b, len),
    decreases len,
{
    if len == 0 {
        assert(pow26(0) == 1);
    } else {
        let da = label_digits(a, len);
        let db = label_digits(b, len);
        if a % 26 != b % 26 {
            assert(da.last() == letter(a % 26));
            assert(db.last() == letter(b % 26));
            assert(letter(a % 26) != letter(b % 26));
        } else {
            let p = pow26((len - 1) as nat);
            assert(a / 26 != b / 26);
            assert(a / 26 < p && b / 26 < p) by (nonlinear_arith)
                requires
                    a < 26 * p,
                    b < 26 * p,
            ;
            lemma_digits_injective(a / 26, b / 26, (len - 1) as nat);
            assert(da.drop_last() == label_digits(a / 26, (len - 1) as nat));
            assert(db.drop_last() == label_digits(b / 26, (len - 1) as nat));
        }
    }
}

proof fn lemma_digits_len(n: nat, len: nat)
    ensures
        label_digits(n, len).len() == len,
    decreases len,
{
    if len > 0 {
        lemma_digits_len(n / 26, (len - 1) as nat);
    }
}

/// Different waypoints get different labels, even when labelled against
/// different totals (a bulk generation, then single insertions): each label
/// has `n < total`.
pub proof fn lemma_labels_unique(n1: nat, total1: nat, n2: nat, total2: nat)
    requires
        n1 != n2,
        n1 < total1,
        n2 < total2,
    ensures
        label_of(n1, total1) != label_of(n2, total2),
{
    let l1 = label_len(total1);
    let l2 = label_len(total2);
    lemma_digits_len(n1, l1);
    lemma_digits_len(n2, l2);
    if l1 == l2 {
        lemma_label_capacity(total1);
        lemma_label_capacity(total2);
        lemma_digits_injective(n1, n2, l1);
    }
}

impl Waypoint {
    /// The label of waypoint `n` among `total_amt`: 'A' to 'Z' while there
    /// are at most 26, 'AA' to 'ZZ' while at most 676, and so on; every label
    /// of a dataset has the same length, so the labels of `0..total_amt`
    /// are distinct.
    pub fn generate_label(n: usize, total_amt: usize) -> (r: String)
        ensures
            r@ == label_of(n as nat, total_amt as nat),
    {
        proof {
            lemma_label_len_bound(total_amt as nat);
        }
        let mut label_len_exec: usize = 1;
        let mut t = total_amt;
        while t > 26
            invariant
                label_len_exec + label_len(t as nat) == 1 + label_len(total_amt as nat),
                label_len(total_amt as nat) <= 1 + total_amt / 26,
                1 <= label_len(t as nat),
            decreases t,
        {
            proof {
                lemma_label_len_bound(div26_up(t as nat));
            }
            t = if t % 26 == 0 { t / 26 } else { t / 26 + 1 };
            label_len_exec = label_len_exec + 1;
        }
        let len = label_len_exec;
        let mut digits: Vec<char> = Vec::new();
        let mut m = n;
        let mut i: usize = 0;
        while i < len
            invariant
                i <= len,
                len == label_len(total_amt as nat),
                digits@.len() == i,
                label_digits(n as nat, len as nat) == label_digits(m as nat,
                    (len - i) as nat) + Seq::new(
                    i as nat,
                    |q: int| digits@[i - 1 - q],
                ),
            decreases len - i,
        {
            let d = (m % 26) as u8;
            let c = (65u8 + d) as char;
            let ghost before = digits@;
            digits.push(c);
            proof {
                let rest = label_digits((m / 26) as nat, (len - i - 1) as nat);
                assert(label_digits(m as nat,
                    (len - i) as nat) == rest.push(letter(m as nat % 26)));
                assert(rest.push(letter(m as nat % 26)) + Seq::new(i as nat,
                    |q: int| before[i - 1 - q])
                    =~= rest + Seq::new((i + 1) as nat, |q: int| digits@[i - q]));
            }
            m = m / 26;
            i = i + 1;
        }
        let mut label = String::new();
        let mut j: usize = len;
        while j > 0
            invariant
                j <= len,
                digits@.len() == len,
                label@.len() == len - j,
                forall|q: int| 0 <= q < label@.len() ==> label@[q] == digits@[len - 1 - q],
            decreases j,
        {
            j = j - 1;
            push_char(&mut label, digits[j]);
        }
        assert(label_digits(m as nat, 0) + Seq::new(len as nat,
            |q: int| digits@[len - 1 - q]) =~= label@);
        label
    }
}

} // verus!
