//! Splitting a remittance into spending, savings, bills and insurance.

use vstd::prelude::*;

verus! {

/// Rust's integer division, which rounds toward zero, for a positive divisor.
pub open spec fn trunc_div(a: int, d: int) -> int
    recommends
        d > 0,
{
    if a >= 0 {
        a / d
    } else {
        -((-a) / d)
    }
}

/// Rust's remainder, which takes the sign of the dividend, for a positive divisor.
pub open spec fn trunc_rem(a: int, d: int) -> int
    recommends
        d > 0,
{
    a - d * trunc_div(a, d)
}

/// The percentages that a split is made of, in the order
/// spending, savings, bills, insurance.
#[derive(Clone, Copy, Debug, PartialEq, Eq)]
pub struct SplitConfig {
    pub spending_percent: u32,
    pub savings_percent: u32,
    pub bills_percent: u32,
    pub insurance_percent: u32,
}

/// A split is valid when no part exceeds 100 and the parts add up to 100.
pub open spec fn valid_percentages(s: u32, sa: u32, b: u32, i: u32) -> bool {
    &&& s <= 100
    &&& sa <= 100
    &&& b <= 100
    &&& i <= 100
    &&& s + sa + b + i == 100
}

impl SplitConfig {
    pub open spec fn is_valid(self) -> bool {
        valid_percentages(
            self.spending_percent,
            self.savings_percent,
            self.bills_percent,
            self.insurance_percent,
        )
    }

    pub open spec fn as_seq(self) -> Seq<u32> {
        seq![
            self.spending_percent,
            self.savings_percent,
            self.bills_percent,
            self.insurance_percent,
        ]
    }
}

/// The split used while none has been stored: 50, 30, 15, 5.
pub open spec fn default_percentages() -> Seq<u32> {
    seq![50u32, 30u32, 15u32, 5u32]
}

/// The share of `total` that `percent` gives, rounded toward zero.
pub open spec fn share(total: int, percent: int) -> int {
    trunc_div(total * percent, 100)
}

/// The four amounts that `total` is split into under `percents`: the first three
/// are the rounded shares, the insurance part takes what is left; a total that is
/// zero or negative gives four zeros.
pub open spec fn split_amounts(total: int, percents: Seq<u32>) -> Seq<int> {
    if total <= 0 {
        seq![0int, 0int, 0int, 0int]
    } else {
        let a = share(total, percents[0] as int);
        let b = share(total, percents[1] as int);
        let c = share(total, percents[2] as int);
        seq![a, b, c, total - a - b - c]
    }
}

/// The state of the remittance-split contract: the split that was stored, if any.
pub struct RemittanceSplit {
    config: Option<SplitConfig>,
}

impl RemittanceSplit {
    #[verifier::type_invariant]
    spec fn stored_split_is_valid(self) -> bool {
        self.config matches Some(c) ==> c.is_valid()
    }

    /// The split that has been stored, if any.
    pub closed spec fn stored(self) -> Option<SplitConfig> {
        self.config
    }

    /// The split in force: the stored one, or the default.
    pub open spec fn percentages(self) -> Seq<u32> {
        match self.stored() {
            Some(c) => c.as_seq(),
            None => default_percentages(),
        }
    }

    /// The contract before any split was stored.
    pub fn new() -> (r: Self)
        ensures
            r.stored() is None,
    {
        RemittanceSplit { config: None }
    }

    /// Stores the split when it is valid and returns `true`; otherwise leaves the
    /// stored split as it was and returns `false`.
    pub fn initialize_split(
        &mut self,
        spending_percent: u32,
        savings_percent: u32,
        bills_percent: u32,
        insurance_percent: u32,
    ) -> (ok: bool)
        ensures
            ok == valid_percentages(spending_percent, savings_percent, bills_percent, insurance_percent),
            ok ==> final(self).stored() == Some(
                SplitConfig { spending_percent, savings_percent, bills_percent, insurance_percent },
            ),
            !ok ==> final(self).stored() == old(self).stored(),
    {
        if !Self::is_valid_split(spending_percent, savings_percent, bills_percent, insurance_percent) {
            return false;
        }
        self.config = Some(
            SplitConfig { spending_percent, savings_percent, bills_percent, insurance_percent },
        );
        true
    }

    /// The split in force, as [spending, savings, bills, insurance].
    pub fn get_split(&self) -> (r: Vec<u32>)
        ensures
            r@ == self.percentages(),
            valid_percentages(r@[0], r@[1], r@[2], r@[3]),
    {
        proof {
            use_type_invariant(self);
        }
        match self.config {
            Some(c) => vec![
                c.spending_percent,
                c.savings_percent,
                c.bills_percent,
                c.insurance_percent,
            ],
            None => vec![50, 30, 15, 5],
        }
    }

    /// The amounts that `total_amount` is split into under the split in force, as
    /// [spending, savings, bills, insurance].
    pub fn calculate_split(&self, total_amount: i128) -> (r: Vec<i128>)
        ensures
            r@.len() == 4,
            forall|i: int| 0 <= i < 4 ==> r@[i] as int == split_amounts(total_amount as int, self.percentages())[i],
            total_amount > 0 ==> r@[0] + r@[1] + r@[2] + r@[3] == total_amount,
            total_amount > 0 ==> forall|i: int| 0 <= i < 4 ==> 0 <= #[trigger] r@[i] <= total_amount,
    {
        if total_amount <= 0 {
            return vec![0, 0, 0, 0];
        }
        proof {
            use_type_invariant(self);
        }
        let split = self.get_split();
        let spending_percent = split[0];
        let savings_percent = split[1];
        let bills_percent = split[2];
        proof {
            lemma_share_bounds(total_amount as int, spending_percent as int);
            lemma_share_bounds(total_amount as int, savings_percent as int);
            lemma_share_bounds(total_amount as int, bills_percent as int);
            lemma_shares_within_total(
                total_amount as int,
                spending_percent as int,
                savings_percent as int,
                bills_percent as int,
            );
        }
        let spending = Self::split_amount(total_amount, spending_percent);
        let savings = Self::split_amount(total_amount, savings_percent);
        let bills = Self::split_amount(total_amount, bills_percent);
        let insurance = total_amount - spending - savings - bills;
        proof {
            lemma_split_preserves_total(total_amount as int, split@);
        }
        vec![spending, savings, bills, insurance]
    }

    /// Whether a split is valid: no part above 100, and the parts add up to 100.
    pub fn is_valid_split(
        spending_percent: u32,
        savings_percent: u32,
        bills_percent: u32,
        insurance_percent: u32,
    ) -> (r: bool)
        ensures
            r == valid_percentages(spending_percent, savings_percent, bills_percent, insurance_percent),
    {
        if spending_percent > 100 || savings_percent > 100 || bills_percent > 100
            || insurance_percent > 100 {
            return false;
        }
        let total = spending_percent as u64 + savings_percent as u64 + bills_percent as u64
            + insurance_percent as u64;
        total == 100
    }

    /// `percent` percent of `total_amount`, rounded toward zero, computed without
    /// forming the full product.
    pub fn split_amount(total_amount: i128, percent: u32) -> (r: i128)
        requires
            i128::MIN <= trunc_div(total_amount as int, 100) * percent <= i128::MAX,
            i128::MIN <= trunc_div(total_amount as int, 100) * percent + trunc_div(
                trunc_rem(total_amount as int, 100) * percent,
                100,
            ) <= i128::MAX,
        ensures
            r as int == share(total_amount as int, percent as int),
    {
        let percent = percent as i128;
        let quotient = total_amount / 100;
        let remainder = total_amount % 100;
        proof {
            lemma_trunc_div_rem(total_amount as int);
            lemma_small_product(remainder as int, percent as int);
        }
        let low = remainder * percent;
        proof {
            lemma_share_decomposed(total_amount as int, percent as int);
        }
        quotient * percent + low / 100
    }
}

/// Rust's `/` and `%` by 100 on `a` agree with `trunc_div` and `trunc_rem`.
proof fn lemma_trunc_div_rem(a: int)
    ensures
        -100 < trunc_rem(a, 100) < 100,
        a >= 0 ==> 0 <= trunc_rem(a, 100),
        a < 0 ==> trunc_rem(a, 100) <= 0,
{
}

/// The remainder times a percentage of at most 2^32 stays small.
proof fn lemma_small_product(r: int, p: int)
    by (nonlinear_arith)
    requires
        -100 < r < 100,
        0 <= p <= 0xffff_ffff,
    ensures
        -100 * 0x1_0000_0000 < r * p < 100 * 0x1_0000_0000,
{
}

/// Splitting the dividend at 100 does not change the rounded share.
proof fn lemma_share_decomposed(t: int, p: int)
    requires
        p >= 0,
    ensures
        share(t, p) == trunc_div(t, 100) * p + trunc_div(trunc_rem(t, 100) * p, 100),
{
    let q = trunc_div(t, 100);
    let r = trunc_rem(t, 100);
    assert(t == 100 * q + r);
    assert(t * p == 100 * (q * p) + r * p) by (nonlinear_arith)
        requires
            t == 100 * q + r,
    ;
    if t >= 0 {
        assert(q >= 0 && 0 <= r < 100);
        assert(r * p >= 0) by (nonlinear_arith)
            requires
                r >= 0,
                p >= 0,
        ;
        assert(q * p >= 0) by (nonlinear_arith)
            requires
                q >= 0,
                p >= 0,
        ;
        assert((100 * (q * p) + r * p) / 100 == q * p + (r * p) / 100) by (nonlinear_arith)
            requires
                q * p >= 0,
                r * p >= 0,
        ;
    } else {
        assert(q <= 0 && -100 < r <= 0);
        assert(r * p <= 0) by (nonlinear_arith)
            requires
                r <= 0,
                p >= 0,
        ;
        assert(q * p <= 0) by (nonlinear_arith)
            requires
                q <= 0,
                p >= 0,
        ;
        let x = -(q * p);
        let y = -(r * p);
        assert((100 * x + y) / 100 == x + y / 100) by (nonlinear_arith)
            requires
                x >= 0,
                y >= 0,
        ;
        if t * p >= 0 {
            assert(t * p == 0 || t * p > 0);
            assert(t * p <= 0) by (nonlinear_arith)
                requires
                    t < 0,
                    p >= 0,
            ;
            assert(x == 0 && y == 0);
        }
    }
}

/// For a positive total and a percentage of at most 100, the share lies between 0
/// and the total.
proof fn lemma_share_bounds(t: int, p: int)
    requires
        t > 0,
        0 <= p <= 100,
    ensures
        0 <= share(t, p) <= t,
        trunc_div(t, 100) * p <= t,
        0 <= trunc_rem(t, 100) * p < 100 * 100,
        share(t, p) == trunc_div(t, 100) * p + trunc_div(trunc_rem(t, 100) * p, 100),
{
    lemma_share_decomposed(t, p);
    assert(0 <= t * p <= t * 100) by (nonlinear_arith)
        requires
            t > 0,
            0 <= p <= 100,
    ;
    let q = t / 100;
    assert(q * p <= q * 100) by (nonlinear_arith)
        requires
            q >= 0,
            0 <= p <= 100,
    ;
    let r = t % 100;
    assert(0 <= r * p <= r * 100) by (nonlinear_arith)
        requires
            0 <= r < 100,
            0 <= p <= 100,
    ;
}

/// Three shares of percentages that add up to at most 100 never exceed the total.
proof fn lemma_shares_within_total(t: int, a: int, b: int, c: int)
    requires
        t > 0,
        0 <= a,
        0 <= b,
        0 <= c,
        a + b + c <= 100,
    ensures
        share(t, a) + share(t, b) + share(t, c) <= t,
{
    assert(t * a + t * b + t * c <= t * 100) by (nonlinear_arith)
        requires
            t > 0,
            0 <= a,
            0 <= b,
            0 <= c,
            a + b + c <= 100,
    ;
    assert(t * a >= 0 && t * b >= 0 && t * c >= 0) by (nonlinear_arith)
        requires
            t > 0,
            0 <= a,
            0 <= b,
            0 <= c,
    ;
    let x = t * a;
    let y = t * b;
    let z = t * c;
    assert(x / 100 + y / 100 + z / 100 <= (x + y + z) / 100) by (nonlinear_arith)
        requires
            x >= 0,
            y >= 0,
            z >= 0,
    ;
    assert((x + y + z) / 100 <= t) by (nonlinear_arith)
        requires
            x + y + z <= t * 100,
            t > 0,
    ;
}

/// For a positive total, the four amounts add up to the total and none is negative.
pub proof fn lemma_split_preserves_total(total: int, percents: Seq<u32>)
    requires
        total > 0,
        percents.len() == 4,
        valid_percentages(percents[0], percents[1], percents[2], percents[3]),
    ensures
        ({
            let r = split_amounts(total, percents);
            &&& r[0] + r[1] + r[2] + r[3] == total
            &&& forall|i: int| 0 <= i < 4 ==> 0 <= #[trigger] r[i] <= total
        }),
{
    lemma_share_bounds(total, percents[0] as int);
    lemma_share_bounds(total, percents[1] as int);
    lemma_share_bounds(total, percents[2] as int);
    lemma_shares_within_total(total, percents[0] as int, percents[1] as int, percents[2] as int);
}


/// A split that was stored is the split in force: reading the split gives back
/// the percentages that were stored, in order.
pub proof fn lemma_split_read_back(
    split: RemittanceSplit,
    spending_percent: u32,
    savings_percent: u32,
    bills_percent: u32,
    insurance_percent: u32,
)
    requires
        split.stored() == Some(
            SplitConfig { spending_percent, savings_percent, bills_percent, insurance_percent },
        ),
    ensures
        split.percentages() == seq![spending_percent, savings_percent, bills_percent, insurance_percent],
{
}

/// Each of the first three parts of a split is the percentage of the total
/// rounded down to a whole unit: a hundred times it is at most the total times the
/// percentage, and less than a hundred more. A total that is zero or negative is
/// split into four zeros.
pub proof fn lemma_split_shares_round_down(total: int, percents: Seq<u32>)
    requires
        percents.len() == 4,
    ensures
        total > 0 ==> forall|k: int|
            0 <= k < 3 ==> {
                let r = #[trigger] split_amounts(total, percents)[k];
                &&& 100 * r <= total * percents[k]
                &&& total * percents[k] < 100 * r + 100
            },
        total > 0 ==> split_amounts(total, percents)[3] == total - split_amounts(total, percents)[0]
            - split_amounts(total, percents)[1] - split_amounts(total, percents)[2],
        total <= 0 ==> split_amounts(total, percents) == seq![0int, 0int, 0int, 0int],
{
    if total > 0 {
        assert forall|k: int| 0 <= k < 3 implies {
            let r = #[trigger] split_amounts(total, percents)[k];
            &&& 100 * r <= total * percents[k]
            &&& total * percents[k] < 100 * r + 100
        } by {
            let x = total * percents[k];
            assert(x >= 0) by (nonlinear_arith)
                requires
                    x == total * percents[k],
                    total > 0,
                    percents[k] >= 0,
            ;
            assert(split_amounts(total, percents)[k] == x / 100);
            assert(100 * (x / 100) <= x < 100 * (x / 100) + 100) by (nonlinear_arith)
                requires
                    x >= 0,
            ;
        }
    }
}

} // verus!
