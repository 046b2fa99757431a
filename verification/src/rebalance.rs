use crate::assets::{asset_le, lemma_asset_le_total, lemma_asset_le_trans, Asset, AssetClass};
use crate::rational::{
    all_wf, int_abs, lemma_mul_abs_bound, lemma_pow10_bounds, lemma_pow10_mono, spec_pow10, lemma_add_cancel_left, lemma_add_congruence, lemma_add_nonneg, lemma_add_pos,
    lemma_add_shuffle, lemma_add_wf, lemma_add_zero_valued, lemma_cancel3,
    lemma_div_congruence, lemma_div_mul_cancel, lemma_div_wf, lemma_eqv_trans, lemma_gap_rewrite,
    lemma_is_zero_congruence, lemma_le_congruence, lemma_le_trans, lemma_mul_comm,
    lemma_mul_congruence, lemma_mul_distrib, lemma_mul_distrib_right, lemma_mul_pos,
    lemma_mul_zero_valued, lemma_rat_sum_congruence, lemma_rat_sum_insert, lemma_rat_sum_mul, lemma_rat_sum_nonneg, lemma_rat_sum_pos,
    lemma_abs_order, lemma_add_le_mono, lemma_add_shift_sign, lemma_add_sub_cancel,
    lemma_div_lt, lemma_div_gt, lemma_div_sign, lemma_mul_sign,
    lemma_rat_sum_take_all, lemma_rat_sum_take_step, lemma_rat_sum_wf, lemma_rat_sum_zero_tail,
    lemma_sub_congruence, lemma_sub_self_zero, lemma_sub_sign, lemma_sub_swap, lemma_sub_zero,
    lemma_sub_zero_eqv, rat_sum, rational_wf, small, Rat, Rational,
};
use vstd::prelude::*;

verus! {

/// Why a rebalancing operation is refused. Every variant is a precondition
/// violation of the caller, except `Overflow`, which reports an exact
/// quantity that cannot be represented in machine range.
#[derive(Clone, Copy, Debug, PartialEq, Eq, Structural)]
pub enum RebalanceError {
    /// An asset was added to an allocation of a different class.
    ClassMismatch,
    /// Target ratios do not sum to exactly 1.
    ImbalancedTargets,
    /// The contribution amount is 0.
    ZeroContribution,
    /// A withdrawal's magnitude reaches or exceeds the current portfolio value.
    OverWithdrawal,
    /// The current portfolio value is negative.
    NegativeBalance,
    /// An exact intermediate quantity left machine range.
    Overflow,
}

/// The exact values of a sequence of assets.
pub open spec fn asset_values(s: Seq<Asset>) -> Seq<Rat> {
    s.map_values(|a: Asset| a.value@)
}

/// Holdings in display order: by name ascending, then by value descending.
pub open spec fn assets_sorted(s: Seq<Asset>) -> bool {
    forall|i: int, j: int| 0 <= i < j < s.len() ==> asset_le(#[trigger] s[i], #[trigger] s[j])
}

/// One asset class's target ratio, the holdings currently classified into
/// it, and the contribution or withdrawal the engine has assigned to it.
pub struct AssetAllocation {
    pub asset_class: AssetClass,
    pub target_ratio: Rational,
    pub underlying_assets: Vec<Asset>,
    pub future_contribution: Rational,
    pub current_total: Rational,
}

impl AssetAllocation {
    /// The summed value of the underlying assets.
    pub open spec fn spec_current_value(self) -> Rat {
        rat_sum(asset_values(self.underlying_assets@))
    }

    /// Current value plus the pending contribution.
    pub open spec fn spec_future_value(self) -> Rat {
        self.spec_current_value().add(self.future_contribution@)
    }

    pub open spec fn spec_future_contribution(self) -> Rat {
        self.future_contribution@
    }

    pub open spec fn spec_assets(self) -> Seq<Asset> {
        self.underlying_assets@
    }

    /// Well-formedness: the target ratio lies in (0, 1]; every underlying
    /// asset is of this allocation's class; and the cached total equals the
    /// sum of the underlying asset values, which is never negative.
    pub open spec fn wf(self) -> bool {
        &&& rational_wf(self.target_ratio)
        &&& Rat::whole(0).lt(self.target_ratio@)
        &&& self.target_ratio@.le(Rat::whole(1))
        &&& rational_wf(self.future_contribution)
        &&& rational_wf(self.current_total)
        &&& self.current_total@.eqv(self.spec_current_value())
        &&& !self.current_total@.is_neg()
        &&& assets_sorted(self.underlying_assets@)
        &&& forall|i: int|
            0 <= i < self.underlying_assets@.len() ==> (#[trigger] self.underlying_assets@[i]).wf()
                && self.underlying_assets@[i].asset_class == self.asset_class
    }

    /// A fresh allocation for one asset class. The target ratio must be an
    /// exact fraction in (0, 1]; a zero or negative weight is rejected here
    /// rather than diagnosed during deviation arithmetic.
    pub fn new(asset_class: AssetClass, target_ratio: Rational) -> (a: AssetAllocation)
        requires
            rational_wf(target_ratio),
            Rat::whole(0).lt(target_ratio@),
            target_ratio@.le(Rat::whole(1)),
        ensures
            a.wf(),
            a.asset_class == asset_class,
            a.target_ratio == target_ratio,
            a.spec_future_contribution().is_zero(),
            a.future_contribution@ == Rat::whole(0),
            a.current_total@ == Rat::whole(0),
            a.spec_assets().len() == 0,
            a.spec_current_value() == Rat::whole(0),
    {
        let a = AssetAllocation {
            asset_class,
            target_ratio,
            underlying_assets: Vec::new(),
            future_contribution: Rational::zero(),
            current_total: Rational::zero(),
        };
        proof {
            assert(asset_values(a.underlying_assets@) =~= Seq::<Rat>::empty());
        }
        a
    }

    /// Accumulate a (signed) amount into the pending contribution.
    pub fn add_contribution(&mut self, contribution: Rational) -> (r: Result<(), RebalanceError>)
        requires
            old(self).wf(),
            rational_wf(contribution),
        ensures
            final(self).wf(),
            final(self).asset_class == old(self).asset_class,
            final(self).target_ratio == old(self).target_ratio,
            final(self).underlying_assets == old(self).underlying_assets,
            final(self).current_total == old(self).current_total,
            match r {
                Ok(()) => final(self).spec_future_contribution().eqv(
                    old(self).spec_future_contribution().add(contribution@),
                ),
                Err(e) => e == RebalanceError::Overflow && *final(self) == *old(self),
            },
            r is Ok ==> int_abs(final(self).future_contribution@.n) <= int_abs(
                old(self).future_contribution@.n * contribution@.d + contribution@.n * old(
                    self,
                ).future_contribution@.d,
            ) && final(self).future_contribution@.d <= old(self).future_contribution@.d
                * contribution@.d,
            small(old(self).future_contribution@) && small(contribution@) ==> r is Ok,
            (int_abs(
                old(self).future_contribution@.n * contribution@.d + contribution@.n * old(
                    self,
                ).future_contribution@.d,
            ) <= 0x7fff_ffff_ffff_ffff && old(self).future_contribution@.d * contribution@.d
                <= 0x7fff_ffff_ffff_ffff) ==> r is Ok,
    {
        match self.future_contribution.checked_add(contribution) {
            Some(v) => {
                self.future_contribution = v;
                Ok(())
            },
            None => Err(RebalanceError::Overflow),
        }
    }

    /// The summed value of the underlying assets, as a machine quantity.
    pub fn current_value(&self) -> (r: Rational)
        requires
            self.wf(),
        ensures
            rational_wf(r),
            r@.eqv(self.spec_current_value()),
            !r@.is_neg(),
            r == self.current_total,
    {
        self.current_total
    }

    /// Current value plus the pending contribution.
    pub fn future_value(&self) -> (r: Option<Rational>)
        requires
            self.wf(),
        ensures
            r matches Some(q) ==> rational_wf(q) && q@.eqv(self.spec_future_value()),
            small(self.current_total@) && small(self.future_contribution@) ==> r is Some,
            self.future_contribution@ == Rat::whole(0) ==> (r matches Some(q) && int_abs(q@.n)
                <= int_abs(self.current_total@.n) && q@.d <= self.current_total@.d),
    {
        let r = self.current_total.checked_add(self.future_contribution);
        proof {
            if self.future_contribution@ == Rat::whole(0) {
                let ct = self.current_total@;
                let fc = self.future_contribution@;
                assert(ct.n * fc.d == ct.n && fc.n * ct.d == 0 && ct.d * fc.d == ct.d)
                    by (nonlinear_arith)
                    requires
                        fc.d == 1,
                        fc.n == 0,
                ;
                assert(int_abs(ct.n * fc.d + fc.n * ct.d) == int_abs(ct.n));
                assert(r is Some);
            }
            match r {
                Some(q) => {
                    lemma_allocation_value_wf(*self);
                    lemma_add_wf(self.current_total@, self.future_contribution@);
                    lemma_add_wf(self.spec_current_value(), self.future_contribution@);
                    lemma_add_congruence(
                        self.current_total@,
                        self.future_contribution@,
                        self.spec_current_value(),
                        self.future_contribution@,
                    );
                    lemma_eqv_trans(
                        q@,
                        self.current_total@.add(self.future_contribution@),
                        self.spec_future_value(),
                    );
                },
                None => {},
            }
        }
        r
    }

    /// The pending contribution assigned so far.
    pub fn future_contribution(&self) -> (r: Rational)
        requires
            self.wf(),
        ensures
            rational_wf(r),
            r == self.future_contribution,
            r@ == self.spec_future_contribution(),
    {
        self.future_contribution
    }

    /// The underlying assets, in storage order.
    pub fn assets(&self) -> (r: &Vec<Asset>)
        ensures
            r@ == self.spec_assets(),
    {
        &self.underlying_assets
    }

    /// Classify one more holding into this allocation, keeping the
    /// holdings in display order: the new asset is placed after every
    /// holding that does not come strictly later. Fails with
    /// `ClassMismatch` exactly when the asset belongs to a different class.
    pub fn add_asset(&mut self, asset: Asset) -> (r: Result<(), RebalanceError>)
        requires
            old(self).wf(),
            asset.wf(),
        ensures
            final(self).wf(),
            final(self).asset_class == old(self).asset_class,
            final(self).target_ratio == old(self).target_ratio,
            final(self).future_contribution == old(self).future_contribution,
            (r == Err::<(), RebalanceError>(RebalanceError::ClassMismatch)) <==> (
            asset.asset_class != old(self).asset_class),
            match r {
                Ok(()) => final(self).spec_assets().len() == old(self).spec_assets().len() + 1
                    && final(self).spec_assets().to_multiset() == old(
                    self,
                ).spec_assets().to_multiset().insert(asset) && assets_sorted(
                    final(self).spec_assets(),
                ) && final(self).current_total@.eqv(old(self).current_total@.add(asset.value@)),
                Err(e) => *final(self) == *old(self) && (e == RebalanceError::ClassMismatch || e
                    == RebalanceError::Overflow),
            },
            (asset.asset_class == old(self).asset_class && small(old(self).current_total@)
                && small(asset.value@)) ==> r is Ok,
            r is Ok ==> int_abs(final(self).current_total@.n) <= int_abs(
                old(self).current_total@.n * asset.value@.d + asset.value@.n * old(
                    self,
                ).current_total@.d,
            ) && final(self).current_total@.d <= old(self).current_total@.d * asset.value@.d,
            (asset.asset_class == old(self).asset_class && int_abs(
                old(self).current_total@.n * asset.value@.d + asset.value@.n * old(
                    self,
                ).current_total@.d,
            ) <= 0x7fff_ffff_ffff_ffff && old(self).current_total@.d * asset.value@.d
                <= 0x7fff_ffff_ffff_ffff) ==> r is Ok,
    {
        if asset.asset_class != self.asset_class {
            return Err(RebalanceError::ClassMismatch);
        }
        let total = match self.current_total.checked_add(asset.value) {
            Some(t) => t,
            None => {
                return Err(RebalanceError::Overflow);
            },
        };
        // stable insertion point: scan past every holding that does not
        // come strictly later than the new one
        let n = self.underlying_assets.len();
        let mut p: usize = 0;
        while p < n && self.underlying_assets[p].precedes(&asset)
            invariant
                *self == *old(self),
                self.wf(),
                asset.wf(),
                n == self.underlying_assets@.len(),
                p <= n,
                forall|k: int|
                    0 <= k < p as int ==> asset_le(#[trigger] self.underlying_assets@[k], asset),
            decreases n - p,
        {
            p = p + 1;
        }
        proof {
            let s = self.underlying_assets@;
            let ins = s.insert(p as int, asset);
            // everything from the insertion point on comes at or after the
            // new asset
            if (p as int) < s.len() {
                lemma_asset_le_total(s[p as int], asset);
            }
            assert forall|k: int| p as int <= k < s.len() implies asset_le(
                asset,
                #[trigger] s[k],
            ) by {
                if k > p as int {
                    lemma_asset_le_trans(asset, s[p as int], s[k]);
                }
            }
            assert forall|i: int, j: int| 0 <= i < j < ins.len() implies asset_le(
                #[trigger] ins[i],
                #[trigger] ins[j],
            ) by {
                if j < p as int {
                } else if j == p as int {
                    assert(ins[i] == s[i]);
                    assert(ins[j] == asset);
                } else if i < p as int {
                    assert(ins[i] == s[i]);
                    assert(ins[j] == s[j - 1]);
                    if j - 1 < p as int {
                    } else {
                        lemma_asset_le_trans(s[i], asset, s[j - 1]);
                    }
                } else if i == p as int {
                    assert(ins[i] == asset);
                    assert(ins[j] == s[j - 1]);
                } else {
                    assert(ins[i] == s[i - 1]);
                    assert(ins[j] == s[j - 1]);
                }
            }
            // the cached total still holds the exact sum
            lemma_allocation_value_wf(*self);
            lemma_add_nonneg(self.current_total@, asset.value@);
            lemma_add_wf(self.current_total@, asset.value@);
            lemma_add_wf(self.spec_current_value(), asset.value@);
            lemma_is_zero_congruence(total@, self.current_total@.add(asset.value@));
            let vals = asset_values(s);
            assert forall|k: int| 0 <= k < vals.len() implies (#[trigger] vals[k]).wf() by {
                assert(s[k].wf());
            }
            lemma_rat_sum_insert(vals, p as int, asset.value@);
            assert(asset_values(ins) =~= vals.insert(p as int, asset.value@));
            lemma_add_congruence(self.current_total@, asset.value@, rat_sum(vals), asset.value@);
            lemma_rat_sum_wf(vals);
            lemma_add_wf(rat_sum(vals), asset.value@);
            lemma_eqv_trans(
                total@,
                self.current_total@.add(asset.value@),
                rat_sum(vals).add(asset.value@),
            );
            let ivals = vals.insert(p as int, asset.value@);
            assert forall|k: int| 0 <= k < ivals.len() implies (#[trigger] ivals[k]).wf() by {
                if k < p as int {
                    assert(ivals[k] == vals[k]);
                } else if k == p as int {
                    assert(ivals[k] == asset.value@);
                } else {
                    assert(ivals[k] == vals[k - 1]);
                }
            }
            lemma_rat_sum_wf(ivals);
            lemma_eqv_trans(
                total@,
                rat_sum(vals).add(asset.value@),
                rat_sum(asset_values(ins)),
            );
            vstd::seq_lib::to_multiset_insert(s, p as int, asset);
        }
        self.underlying_assets.insert(p, asset);
        self.current_total = total;
        Ok(())
    }

    /// The share of a grand total that this allocation's future value holds.
    pub open spec fn spec_percent_holdings(self, grand_total: Rat) -> Rat {
        self.spec_future_value().div(grand_total)
    }

    /// Signed fractional distance from target, relative to the target:
    /// `percent_holdings / target_ratio - 1`.
    pub open spec fn spec_deviation(self, new_total: Rat) -> Rat {
        self.spec_percent_holdings(new_total).div(self.target_ratio@).sub(Rat::whole(1))
    }

    /// `future_value / grand_total`. The caller must rule out a zero total.
    pub fn percent_holdings(&self, portfolio_total: &Rational) -> (r: Option<Rational>)
        requires
            self.wf(),
            rational_wf(*portfolio_total),
            !portfolio_total@.is_zero(),
        ensures
            r matches Some(q) ==> rational_wf(q) && q@.eqv(
                self.spec_percent_holdings(portfolio_total@),
            ),
            (self.current_total@.d == 1 && int_abs(self.current_total@.n) <= 0x100_0000_0000
                && self.future_contribution@ == Rat::whole(0) && portfolio_total@.d == 1 && 1
                <= portfolio_total@.n <= 0x1000_0000_0000) ==> (r matches Some(q) && int_abs(q@.n)
                <= 0x100_0000_0000 && q@.d <= 0x1000_0000_0000),
    {
        let ghost bounded = self.current_total@.d == 1 && int_abs(self.current_total@.n)
            <= 0x100_0000_0000 && self.future_contribution@ == Rat::whole(0) && portfolio_total@.d
            == 1 && 1 <= portfolio_total@.n <= 0x1000_0000_0000;
        let fv = match self.future_value() {
            Some(v) => v,
            None => {
                return None;
            },
        };
        let r = fv.checked_div(*portfolio_total);
        proof {
            if bounded {
                let t = portfolio_total@;
                assert(int_abs(fv@.n) <= 0x100_0000_0000 && fv@.d == 1);
                assert(fv@.n * t.d == fv@.n) by (nonlinear_arith)
                    requires
                        t.d == 1,
                ;
                assert(fv@.d * t.n == t.n) by (nonlinear_arith)
                    requires
                        fv@.d == 1,
                ;
                assert(int_abs(fv@.n * t.d) <= 0x100_0000_0000);
                assert(int_abs(fv@.d * t.n) <= 0x1000_0000_0000);
                assert(r is Some);
            }
            match r {
                Some(q) => {
                    lemma_allocation_value_wf(*self);
                    lemma_add_wf(self.spec_current_value(), self.future_contribution@);
                    lemma_div_congruence(
                        fv@,
                        portfolio_total@,
                        self.spec_future_value(),
                        portfolio_total@,
                    );
                    lemma_div_wf(fv@, portfolio_total@);
                    lemma_div_wf(self.spec_future_value(), portfolio_total@);
                    lemma_eqv_trans(
                        q@,
                        fv@.div(portfolio_total@),
                        self.spec_percent_holdings(portfolio_total@),
                    );
                },
                None => {},
            }
        }
        r
    }

    /// The deviation of this allocation from its target, measured against a
    /// hypothetical grand total. The caller must rule out a zero total; the
    /// target ratio is positive by well-formedness.
    pub fn deviation(&self, new_total: &Rational) -> (r: Option<Rational>)
        requires
            self.wf(),
            rational_wf(*new_total),
            !new_total@.is_zero(),
        ensures
            r matches Some(q) ==> rational_wf(q) && q@.eqv(self.spec_deviation(new_total@)),
            (self.current_total@.d == 1 && int_abs(self.current_total@.n) <= 0x100_0000_0000
                && self.future_contribution@ == Rat::whole(0) && new_total@.d == 1 && 1
                <= new_total@.n <= 0x1000_0000_0000 && 1 <= self.target_ratio@.n <= 100 && 1
                <= self.target_ratio@.d <= 100) ==> r is Some,
    {
        let ghost bounded = self.current_total@.d == 1 && int_abs(self.current_total@.n)
            <= 0x100_0000_0000 && self.future_contribution@ == Rat::whole(0) && new_total@.d == 1
            && 1 <= new_total@.n <= 0x1000_0000_0000 && 1 <= self.target_ratio@.n <= 100 && 1
            <= self.target_ratio@.d <= 100;
        let ph = match self.percent_holdings(new_total) {
            Some(v) => v,
            None => {
                return None;
            },
        };
        let share = match ph.checked_div(self.target_ratio) {
            Some(v) => v,
            None => {
                proof {
                    if bounded {
                        let ratio = self.target_ratio@;
                        lemma_mul_abs_bound(ph@.n, ratio.d, 0x100_0000_0000, 100);
                        lemma_mul_abs_bound(ph@.d, ratio.n, 0x1000_0000_0000, 100);
                        assert(false);
                    }
                }
                return None;
            },
        };
        let one = Rational::from_integer(1);
        let r = share.checked_sub(one);
        proof {
            if bounded {
                let ratio = self.target_ratio@;
                lemma_mul_abs_bound(ph@.n, ratio.d, 0x100_0000_0000, 100);
                lemma_mul_abs_bound(ph@.d, ratio.n, 0x1000_0000_0000, 100);
                assert(int_abs(share@.n) <= 0x6400_0000_0000 && share@.d <= 0x6_4000_0000_0000);
                assert(share@.n * one@.d == share@.n && one@.n * share@.d == share@.d
                    && share@.d * one@.d == share@.d) by (nonlinear_arith)
                    requires
                        one@.d == 1,
                        one@.n == 1,
                ;
                assert(int_abs(share@.n * one@.d - one@.n * share@.d) <= 0x6_A400_0000_0000);
                assert(r is Some);
            }
            let sph = self.spec_percent_holdings(new_total@);
            let ratio = self.target_ratio@;
            lemma_allocation_value_wf(*self);
            lemma_add_wf(self.spec_current_value(), self.future_contribution@);
            lemma_div_wf(self.spec_future_value(), new_total@);
            match r {
                Some(q) => {
                    // ph ~ sph, so ph / ratio ~ sph / ratio
                    lemma_div_congruence(ph@, ratio, sph, ratio);
                    lemma_div_wf(ph@, ratio);
                    lemma_div_wf(sph, ratio);
                    lemma_eqv_trans(share@, ph@.div(ratio), sph.div(ratio));
                    // share ~ sph / ratio, so share - 1 ~ sph / ratio - 1
                    lemma_sub_congruence(share@, Rat::whole(1), sph.div(ratio), Rat::whole(1));
                    lemma_add_wf(share@, Rat::whole(1).neg());
                    lemma_add_wf(sph.div(ratio), Rat::whole(1).neg());
                    lemma_eqv_trans(
                        q@,
                        share@.sub(Rat::whole(1)),
                        self.spec_deviation(new_total@),
                    );
                },
                None => {},
            }
        }
        r
    }
}

/// The summed asset values of a well-formed allocation form a well-formed,
/// nonnegative quantity.
pub proof fn lemma_allocation_value_wf(a: AssetAllocation)
    requires
        a.wf(),
    ensures
        a.spec_current_value().wf(),
        !a.spec_current_value().is_neg(),
{
    let vals = asset_values(a.underlying_assets@);
    assert forall|i: int| 0 <= i < vals.len() implies (#[trigger] vals[i]).wf()
        && !vals[i].is_neg() by {
        assert(a.underlying_assets@[i].wf());
    }
    lemma_rat_sum_nonneg(vals);
}

pub open spec fn allocs_wf(s: Seq<AssetAllocation>) -> bool {
    forall|i: int| 0 <= i < s.len() ==> (#[trigger] s[i]).wf()
}

/// Cached class totals held as bounded whole numbers, as they are when the
/// holdings were entered as whole currency amounts.
pub open spec fn whole_valued(s: Seq<AssetAllocation>) -> bool {
    forall|i: int|
        0 <= i < s.len() ==> (#[trigger] s[i]).current_total@.d == 1 && int_abs(
            s[i].current_total@.n,
        ) <= 0x100_0000_0000
}

/// Pending contributions all stored as the canonical zero, as the
/// constructors leave them in a fresh snapshot.
pub open spec fn pristine(s: Seq<AssetAllocation>) -> bool {
    forall|i: int|
        0 <= i < s.len() ==> (#[trigger] s[i]).future_contribution@ == Rat::whole(0)
}

/// Target ratios written as percent-grained fractions: numerator and
/// denominator both between 1 and 100.
pub open spec fn percent_ratios(s: Seq<AssetAllocation>) -> bool {
    forall|i: int|
        0 <= i < s.len() ==> 1 <= (#[trigger] s[i]).target_ratio@.n <= 100 && 1
            <= s[i].target_ratio@.d <= 100
}

/// No two allocations share an asset class; the data model's grouping-key
/// invariant. Under it, shape preservation pins a one-to-one
/// correspondence, since each class appears exactly once on either side.
pub open spec fn distinct_classes(s: Seq<AssetAllocation>) -> bool {
    forall|i: int, j: int|
        0 <= i < j < s.len() ==> (#[trigger] s[i]).asset_class != (#[trigger] s[j]).asset_class
}

/// Descending order by current value: most significant classes first.
pub open spec fn sorted_desc_by_value(s: Seq<AssetAllocation>) -> bool {
    forall|i: int, j: int|
        0 <= i < j < s.len() ==> s[j].current_total@.le(s[i].current_total@)
}

pub open spec fn current_values(s: Seq<AssetAllocation>) -> Seq<Rat> {
    s.map_values(|a: AssetAllocation| a.spec_current_value())
}

pub open spec fn future_values(s: Seq<AssetAllocation>) -> Seq<Rat> {
    s.map_values(|a: AssetAllocation| a.spec_future_value())
}

pub open spec fn target_ratios(s: Seq<AssetAllocation>) -> Seq<Rat> {
    s.map_values(|a: AssetAllocation| a.target_ratio@)
}

pub open spec fn future_contributions(s: Seq<AssetAllocation>) -> Seq<Rat> {
    s.map_values(|a: AssetAllocation| a.spec_future_contribution())
}

/// The summed current values of well-formed allocations form a well-formed,
/// nonnegative quantity.
pub proof fn lemma_portfolio_value_wf(s: Seq<AssetAllocation>)
    requires
        allocs_wf(s),
    ensures
        rat_sum(current_values(s)).wf(),
        !rat_sum(current_values(s)).is_neg(),
{
    let vals = current_values(s);
    assert forall|i: int| 0 <= i < vals.len() implies (#[trigger] vals[i]).wf()
        && !vals[i].is_neg() by {
        lemma_allocation_value_wf(s[i]);
    }
    lemma_rat_sum_nonneg(vals);
}

/// Reordering allocations changes neither the sum of their target ratios
/// nor the sum of their current values.
pub proof fn lemma_alloc_sums_permutation(a: Seq<AssetAllocation>, b: Seq<AssetAllocation>)
    requires
        allocs_wf(a),
        allocs_wf(b),
        a.to_multiset() == b.to_multiset(),
    ensures
        rat_sum(target_ratios(a)).eqv(rat_sum(target_ratios(b))),
        rat_sum(current_values(a)).eqv(rat_sum(current_values(b))),
    decreases a.len(),
{
    broadcast use vstd::seq_lib::group_to_multiset_ensures;

    assert forall|i: int| 0 <= i < target_ratios(a).len() implies (#[trigger] target_ratios(
        a,
    )[i]).wf() by {
        assert(a[i].wf());
    }
    assert forall|i: int| 0 <= i < target_ratios(b).len() implies (#[trigger] target_ratios(
        b,
    )[i]).wf() by {
        assert(b[i].wf());
    }
    lemma_rat_sum_wf(target_ratios(a));
    lemma_rat_sum_wf(target_ratios(b));
    lemma_portfolio_value_wf(a);
    lemma_portfolio_value_wf(b);
    vstd::seq_lib::to_multiset_len(a);
    vstd::seq_lib::to_multiset_len(b);
    if a.len() == 0 {
        assert(b.len() == 0);
        assert(target_ratios(a) =~= target_ratios(b));
        assert(current_values(a) =~= current_values(b));
    } else {
        let x = a.last();
        let a2 = a.drop_last();
        assert(a.to_multiset().count(x) > 0);
        assert(b.to_multiset().count(x) > 0);
        assert(b.contains(x));
        let j = choose|j: int| 0 <= j < b.len() && b[j] == x;
        let b2 = b.remove(j);
        assert(a2 =~= a.remove(a.len() - 1));
        vstd::seq_lib::to_multiset_remove(a, a.len() - 1);
        vstd::seq_lib::to_multiset_remove(b, j);
        assert(a2.to_multiset() == b2.to_multiset());
        assert forall|i: int| 0 <= i < a2.len() implies (#[trigger] a2[i]).wf() by {
            assert(a[i].wf());
        }
        assert forall|i: int| 0 <= i < b2.len() implies (#[trigger] b2[i]).wf() by {
            if i < j {
                assert(b2[i] == b[i]);
            } else {
                assert(b2[i] == b[i + 1]);
            }
        }
        lemma_alloc_sums_permutation(a2, b2);
        // both sums split off the element x, wherever it stands
        lemma_allocation_value_wf(x);
        assert forall|i: int| 0 <= i < target_ratios(a2).len() implies (
        #[trigger] target_ratios(a2)[i]).wf() by {
            assert(a2[i].wf());
        }
        assert forall|i: int| 0 <= i < target_ratios(b2).len() implies (
        #[trigger] target_ratios(b2)[i]).wf() by {
            assert(b2[i].wf());
        }
        lemma_rat_sum_wf(target_ratios(a2));
        lemma_rat_sum_wf(target_ratios(b2));
        lemma_portfolio_value_wf(a2);
        lemma_portfolio_value_wf(b2);
        // target ratios
        assert(target_ratios(a2) =~= target_ratios(a).drop_last());
        assert(target_ratios(a).last() == x.target_ratio@);
        assert(rat_sum(target_ratios(a)) == rat_sum(target_ratios(a2)).add(x.target_ratio@));
        lemma_rat_sum_insert(target_ratios(b2), j, x.target_ratio@);
        assert(target_ratios(b2).insert(j, x.target_ratio@) =~= target_ratios(b));
        lemma_add_wf(rat_sum(target_ratios(a2)), x.target_ratio@);
        lemma_add_wf(rat_sum(target_ratios(b2)), x.target_ratio@);
        lemma_add_congruence(
            rat_sum(target_ratios(a2)),
            x.target_ratio@,
            rat_sum(target_ratios(b2)),
            x.target_ratio@,
        );
        lemma_eqv_trans(
            rat_sum(target_ratios(a)),
            rat_sum(target_ratios(b2)).add(x.target_ratio@),
            rat_sum(target_ratios(b)),
        );
        // current values
        assert(current_values(a2) =~= current_values(a).drop_last());
        assert(current_values(a).last() == x.spec_current_value());
        assert(rat_sum(current_values(a)) == rat_sum(current_values(a2)).add(
            x.spec_current_value(),
        ));
        assert forall|i: int| 0 <= i < current_values(b2).len() implies (
        #[trigger] current_values(b2)[i]).wf() by {
            assert(b2[i].wf());
            lemma_allocation_value_wf(b2[i]);
        }
        lemma_rat_sum_insert(current_values(b2), j, x.spec_current_value());
        assert(current_values(b2).insert(j, x.spec_current_value()) =~= current_values(b));
        lemma_add_wf(rat_sum(current_values(a2)), x.spec_current_value());
        lemma_add_wf(rat_sum(current_values(b2)), x.spec_current_value());
        lemma_add_congruence(
            rat_sum(current_values(a2)),
            x.spec_current_value(),
            rat_sum(current_values(b2)),
            x.spec_current_value(),
        );
        lemma_eqv_trans(
            rat_sum(current_values(a)),
            rat_sum(current_values(b2)).add(x.spec_current_value()),
            rat_sum(current_values(b)),
        );
    }
}

/// Exchange two adjacent elements of a vector.
fn swap_adjacent<T>(v: &mut Vec<T>, j: usize)
    requires
        1 <= j < old(v)@.len(),
    ensures
        final(v)@ == old(v)@.update(j - 1, old(v)@[j as int]).update(j as int, old(v)@[j - 1]),
        final(v)@.to_multiset() == old(v)@.to_multiset(),
{
    let ghost orig = v@;
    let x = v.remove(j);
    proof {
        broadcast use vstd::seq_lib::group_to_multiset_ensures;

        assert(v@.to_multiset() =~= orig.to_multiset().remove(orig[j as int]));
    }
    v.insert(j - 1, x);
    proof {
        broadcast use vstd::seq_lib::group_to_multiset_ensures;

        vstd::seq_lib::to_multiset_insert(orig.remove(j as int), j - 1, x);
        assert(v@ =~= orig.update(j - 1, orig[j as int]).update(j as int, orig[j - 1]));
        assert(orig.to_multiset().contains(orig[j as int]));
        assert(v@.to_multiset() =~= orig.to_multiset());
    }
}

/// Stable insertion sort, descending by cached current value.
fn sort_allocations_by_value_desc(v: Vec<AssetAllocation>) -> (r: Vec<AssetAllocation>)
    requires
        allocs_wf(v@),
    ensures
        allocs_wf(r@),
        sorted_desc_by_value(r@),
        r@.to_multiset() == v@.to_multiset(),
        r@.len() == v@.len(),
{
    let mut v = v;
    let ghost orig = v@;
    if v.len() <= 1 {
        return v;
    }
    let mut i: usize = 1;
    while i < v.len()
        invariant
            allocs_wf(v@),
            v@.len() == orig.len(),
            v@.to_multiset() == orig.to_multiset(),
            1 <= i <= v@.len(),
            sorted_desc_by_value(v@.take(i as int)),
        decreases v@.len() - i,
    {
        let mut j: usize = i;
        proof {
            assert forall|a: int, b: int|
                0 <= a < b <= i as int && b != i as int implies v@[b].current_total@.le(
                v@[a].current_total@,
            ) by {
                assert(v@.take(i as int)[a] == v@[a]);
                assert(v@.take(i as int)[b] == v@[b]);
            }
        }
        while j > 0 && v[j - 1].current_total.lt(&v[j].current_total)
            invariant
                allocs_wf(v@),
                v@.len() == orig.len(),
                v@.to_multiset() == orig.to_multiset(),
                0 <= j <= i < v@.len(),
                forall|a: int, b: int|
                    0 <= a < b <= i as int && b != j as int ==> v@[b].current_total@.le(
                        v@[a].current_total@,
                    ),
                forall|b: int|
                    j < b <= i as int ==> v@[b].current_total@.le(v@[j as int].current_total@),
            decreases j,
        {
            let ghost before = v@;
            swap_adjacent(&mut v, j);
            proof {
                assert forall|k: int| 0 <= k < v@.len() implies (#[trigger] v@[k]).wf() by {
                    assert(before[k].wf());
                }
            }
            j = j - 1;
        }
        proof {
            assert forall|a: int, b: int| 0 <= a < b <= i as int implies v@[b].current_total@.le(
                v@[a].current_total@,
            ) by {
                if b == j as int {
                    if a < j - 1 {
                        lemma_le_trans(
                            v@[b].current_total@,
                            v@[j - 1].current_total@,
                            v@[a].current_total@,
                        );
                    }
                }
            }
            assert(sorted_desc_by_value(v@.take(i + 1)));
        }
        i = i + 1;
    }
    proof {
        assert(v@.take(v@.len() as int) =~= v@);
    }
    v
}

/// An allocation paired with its deviation against the hypothetical
/// post-transaction total, the key by which the engine orders its walk.
struct Ranked {
    alloc: AssetAllocation,
    dev: Rational,
}

/// Ascending order by deviation: most underweight classes first.
spec fn sorted_asc_by_dev(s: Seq<Ranked>) -> bool {
    forall|i: int, j: int| 0 <= i < j < s.len() ==> s[i].dev@.le(s[j].dev@)
}

/// Stable insertion sort, ascending by deviation.
fn sort_ranked_by_dev(v: Vec<Ranked>) -> (r: Vec<Ranked>)
    requires
        forall|i: int| 0 <= i < v@.len() ==> rational_wf((#[trigger] v@[i]).dev),
    ensures
        forall|i: int| 0 <= i < r@.len() ==> rational_wf((#[trigger] r@[i]).dev),
        sorted_asc_by_dev(r@),
        r@.to_multiset() == v@.to_multiset(),
        r@.len() == v@.len(),
{
    let mut v = v;
    let ghost orig = v@;
    if v.len() <= 1 {
        return v;
    }
    let mut i: usize = 1;
    while i < v.len()
        invariant
            forall|k: int| 0 <= k < v@.len() ==> rational_wf((#[trigger] v@[k]).dev),
            v@.len() == orig.len(),
            v@.to_multiset() == orig.to_multiset(),
            1 <= i <= v@.len(),
            sorted_asc_by_dev(v@.take(i as int)),
        decreases v@.len() - i,
    {
        let mut j: usize = i;
        proof {
            assert forall|a: int, b: int|
                0 <= a < b <= i as int && b != i as int implies v@[a].dev@.le(v@[b].dev@) by {
                assert(v@.take(i as int)[a] == v@[a]);
                assert(v@.take(i as int)[b] == v@[b]);
            }
        }
        while j > 0 && v[j].dev.lt(&v[j - 1].dev)
            invariant
                forall|k: int| 0 <= k < v@.len() ==> rational_wf((#[trigger] v@[k]).dev),
                v@.len() == orig.len(),
                v@.to_multiset() == orig.to_multiset(),
                0 <= j <= i < v@.len(),
                forall|a: int, b: int|
                    0 <= a < b <= i as int && b != j as int ==> v@[a].dev@.le(v@[b].dev@),
                forall|b: int| j < b <= i as int ==> v@[j as int].dev@.le(v@[b].dev@),
            decreases j,
        {
            let ghost before = v@;
            swap_adjacent(&mut v, j);
            proof {
                assert forall|k: int| 0 <= k < v@.len() implies rational_wf(
                    (#[trigger] v@[k]).dev,
                ) by {
                    assert(rational_wf(before[k].dev));
                }
            }
            j = j - 1;
        }
        proof {
            assert forall|a: int, b: int| 0 <= a < b <= i as int implies v@[a].dev@.le(
                v@[b].dev@,
            ) by {
                if b == j as int {
                    if a < j - 1 {
                        lemma_le_trans(v@[a].dev@, v@[j - 1].dev@, v@[b].dev@);
                    }
                }
            }
            assert(sorted_asc_by_dev(v@.take(i + 1)));
        }
        i = i + 1;
    }
    proof {
        assert(v@.take(v@.len() as int) =~= v@);
    }
    v
}

/// Reverse the order of the classes: overweight classes first, for a
/// withdrawal.
fn reverse_ranked(v: Vec<Ranked>) -> (r: Vec<Ranked>)
    ensures
        r@.len() == v@.len(),
        forall|i: int| 0 <= i < v@.len() ==> r@[i] == v@[v@.len() - 1 - i],
{
    let mut v = v;
    let ghost orig = v@;
    let mut out: Vec<Ranked> = Vec::new();
    while v.len() > 0
        invariant
            out@.len() + v@.len() == orig.len(),
            v@ == orig.take(v@.len() as int),
            forall|i: int| 0 <= i < out@.len() ==> out@[i] == orig[orig.len() - 1 - i],
        decreases v@.len(),
    {
        let x = match v.pop() {
            Some(x) => x,
            None => {
                proof {
                    assert(false);
                }
                return out;
            },
        };
        proof {
            assert(orig.take((v@.len() + 1) as int).last() == orig[orig.len() - 1
                - out@.len() as int]);
            assert(orig.take((v@.len() + 1) as int).drop_last() =~= orig.take(v@.len() as int));
        }
        out.push(x);
    }
    out
}

/// An ordered collection of allocations: one point-in-time snapshot, most
/// significant classes first.
pub struct Portfolio {
    pub allocations: Vec<AssetAllocation>,
}

impl Portfolio {
    pub open spec fn wf(self) -> bool {
        allocs_wf(self.allocations@)
    }

    /// The summed current value of all allocations.
    pub open spec fn spec_current_value(self) -> Rat {
        rat_sum(current_values(self.allocations@))
    }

    /// The summed future value of all allocations.
    pub open spec fn spec_future_value(self) -> Rat {
        rat_sum(future_values(self.allocations@))
    }

    /// The sum of all target ratios; rebalancing demands that this is 1.
    pub open spec fn spec_ratio_sum(self) -> Rat {
        rat_sum(target_ratios(self.allocations@))
    }

    /// The sum of all pending contributions.
    pub open spec fn spec_contribution_sum(self) -> Rat {
        rat_sum(future_contributions(self.allocations@))
    }

    /// Gather allocations into a snapshot, sorted descending by current
    /// value for deterministic, most-significant-first reporting. The order
    /// of two allocations of equal current value is deliberately left open.
    /// The ratio sum is not validated here; the engine checks it when
    /// rebalancing is requested.
    pub fn new(allocations: Vec<AssetAllocation>) -> (p: Portfolio)
        requires
            allocs_wf(allocations@),
        ensures
            p.wf(),
            sorted_desc_by_value(p.allocations@),
            p.allocations@.to_multiset() == allocations@.to_multiset(),
            p.allocations@.len() == allocations@.len(),
            forall|i: int|
                0 <= i < p.allocations@.len() ==> allocations@.contains(
                    #[trigger] p.allocations@[i],
                ),
            whole_valued(allocations@) ==> whole_valued(p.allocations@),
            percent_ratios(allocations@) ==> percent_ratios(p.allocations@),
            pristine(allocations@) ==> pristine(p.allocations@),
            rat_sum(target_ratios(p.allocations@)).eqv(rat_sum(target_ratios(allocations@))),
            rat_sum(current_values(p.allocations@)).eqv(rat_sum(current_values(allocations@))),
    {
        let sorted = sort_allocations_by_value_desc(allocations);
        proof {
            broadcast use vstd::seq_lib::group_to_multiset_ensures;

            assert forall|i: int| 0 <= i < sorted@.len() implies allocations@.contains(
                #[trigger] sorted@[i],
            ) by {
                assert(sorted@.to_multiset().count(sorted@[i]) > 0);
                assert(allocations@.to_multiset().count(sorted@[i]) > 0);
            }
            assert forall|i: int|
                0 <= i < sorted@.len() implies exists|j: int|
                0 <= j < allocations@.len() && allocations@[j] == #[trigger] sorted@[i] by {
                assert(allocations@.contains(sorted@[i]));
            }
            if whole_valued(allocations@) {
                assert forall|i: int|
                    0 <= i < sorted@.len() implies (#[trigger] sorted@[i]).current_total@.d == 1
                    && int_abs(sorted@[i].current_total@.n) <= 0x100_0000_0000 by {
                    let j = choose|j: int|
                        0 <= j < allocations@.len() && allocations@[j] == sorted@[i];
                    assert(allocations@[j].current_total@.d == 1);
                }
            }
            if percent_ratios(allocations@) {
                assert forall|i: int|
                    0 <= i < sorted@.len() implies 1 <= (#[trigger] sorted@[i]).target_ratio@.n
                    <= 100 && 1 <= sorted@[i].target_ratio@.d <= 100 by {
                    let j = choose|j: int|
                        0 <= j < allocations@.len() && allocations@[j] == sorted@[i];
                    assert(1 <= allocations@[j].target_ratio@.n <= 100);
                }
            }
            if pristine(allocations@) {
                assert forall|i: int|
                    0 <= i < sorted@.len() implies (#[trigger] sorted@[i]).future_contribution@
                    == Rat::whole(0) by {
                    let j = choose|j: int|
                        0 <= j < allocations@.len() && allocations@[j] == sorted@[i];
                    assert(allocations@[j].future_contribution@ == Rat::whole(0));
                }
            }
            lemma_alloc_sums_permutation(sorted@, allocations@);
        }
        Portfolio { allocations: sorted }
    }

    pub fn num_asset_classes(&self) -> (n: usize)
        ensures
            n == self.allocations@.len(),
    {
        self.allocations.len()
    }

    /// The portfolio's current value: the sum of every allocation's holdings.
    pub fn current_value(&self) -> (r: Option<Rational>)
        requires
            self.wf(),
        ensures
            r matches Some(q) ==> rational_wf(q) && q@.eqv(self.spec_current_value()) && !q@.is_neg(),
            whole_valued(self.allocations@) && self.allocations@.len() <= 0x10000 ==> (r matches
            Some(q) && q@.d == 1 && int_abs(q@.n) <= self.allocations@.len() * 0x100_0000_0000),
    {
        let ghost vals = current_values(self.allocations@);
        let mut acc = Rational::zero();
        let mut k: usize = 0;
        proof {
            assert(vals.take(0) =~= Seq::<Rat>::empty());
        }
        while k < self.allocations.len()
            invariant
                self.wf(),
                k <= self.allocations@.len(),
                vals == current_values(self.allocations@),
                rational_wf(acc),
                acc@.eqv(rat_sum(vals.take(k as int))),
                whole_valued(self.allocations@) && self.allocations@.len() <= 0x10000 ==> (acc@.d
                    == 1 && int_abs(acc@.n) <= k as int * 0x100_0000_0000),
            decreases self.allocations@.len() - k,
        {
            let ct = self.allocations[k].current_value();
            proof {
                if whole_valued(self.allocations@) && self.allocations@.len() <= 0x10000 {
                    assert(self.allocations@[k as int].current_total@.d == 1);
                    assert(int_abs(self.allocations@[k as int].current_total@.n)
                        <= 0x100_0000_0000);
                    assert(acc@.n * ct@.d == acc@.n) by (nonlinear_arith)
                        requires
                            ct@.d == 1,
                    ;
                    assert(ct@.n * acc@.d == ct@.n) by (nonlinear_arith)
                        requires
                            acc@.d == 1,
                    ;
                    assert(int_abs(acc@.n * ct@.d + ct@.n * acc@.d) <= (k as int + 1)
                        * 0x100_0000_0000);
                    assert(acc@.d * ct@.d == 1) by (nonlinear_arith)
                        requires
                            acc@.d == 1,
                            ct@.d == 1,
                    ;
                    assert((k as int + 1) * 0x100_0000_0000 <= 0x10000 * 0x100_0000_0000)
                        by (nonlinear_arith)
                        requires
                            k as int + 1 <= 0x10000,
                    ;
                }
            }
            let next = match acc.checked_add(ct) {
                Some(s) => s,
                None => {
                    proof {
                        if whole_valued(self.allocations@) && self.allocations@.len() <= 0x10000 {
                            assert(false);
                        }
                    }
                    return None;
                },
            };
            proof {
                lemma_allocation_value_wf(self.allocations@[k as int]);
                assert forall|i: int| 0 <= i < vals.len() implies (#[trigger] vals[i]).wf() by {
                    lemma_allocation_value_wf(self.allocations@[i]);
                }
                lemma_sum_chunk(
                    acc@,
                    ct@,
                    next@,
                    vals,
                    k as int,
                    self.allocations@[k as int].spec_current_value(),
                );
            }
            acc = next;
            k = k + 1;
        }
        proof {
            lemma_rat_sum_take_all(vals);
            lemma_portfolio_value_wf(self.allocations@);
            lemma_is_zero_congruence(acc@, self.spec_current_value());
        }
        Some(acc)
    }

    /// The portfolio's future value: current value plus pending contributions.
    pub fn future_value(&self) -> (r: Option<Rational>)
        requires
            self.wf(),
        ensures
            r matches Some(q) ==> rational_wf(q) && q@.eqv(self.spec_future_value()),
            (whole_valued(self.allocations@) && pristine(self.allocations@)
                && self.allocations@.len() <= 0x10000) ==> r is Some,
    {
        let ghost vals = future_values(self.allocations@);
        let mut acc = Rational::zero();
        let mut k: usize = 0;
        proof {
            assert(vals.take(0) =~= Seq::<Rat>::empty());
        }
        while k < self.allocations.len()
            invariant
                self.wf(),
                k <= self.allocations@.len(),
                vals == future_values(self.allocations@),
                rational_wf(acc),
                acc@.eqv(rat_sum(vals.take(k as int))),
                (whole_valued(self.allocations@) && pristine(self.allocations@)
                    && self.allocations@.len() <= 0x10000) ==> (acc@.d == 1 && int_abs(acc@.n)
                    <= k as int * 0x100_0000_0000),
            decreases self.allocations@.len() - k,
        {
            let fv = match self.allocations[k].future_value() {
                Some(s) => s,
                None => {
                    return None;
                },
            };
            proof {
                if whole_valued(self.allocations@) && pristine(self.allocations@)
                    && self.allocations@.len() <= 0x10000 {
                    let ct = self.allocations@[k as int].current_total@;
                    assert(int_abs(fv@.n) <= int_abs(ct.n) && fv@.d <= ct.d);
                    assert(fv@.d == 1);
                    assert(acc@.n * fv@.d == acc@.n && fv@.n * acc@.d == fv@.n && acc@.d * fv@.d
                        == 1) by (nonlinear_arith)
                        requires
                            acc@.d == 1,
                            fv@.d == 1,
                    ;
                    assert(int_abs(acc@.n * fv@.d + fv@.n * acc@.d) <= (k as int + 1)
                        * 0x100_0000_0000);
                    assert((k as int + 1) * 0x100_0000_0000 <= 0x10000 * 0x100_0000_0000)
                        by (nonlinear_arith)
                        requires
                            k as int + 1 <= 0x10000,
                    ;
                }
            }
            let next = match acc.checked_add(fv) {
                Some(s) => s,
                None => {
                    proof {
                        if whole_valued(self.allocations@) && pristine(self.allocations@)
                            && self.allocations@.len() <= 0x10000 {
                            assert(false);
                        }
                    }
                    return None;
                },
            };
            proof {
                lemma_allocation_value_wf(self.allocations@[k as int]);
                lemma_add_wf(
                    self.allocations@[k as int].spec_current_value(),
                    self.allocations@[k as int].future_contribution@,
                );
                assert forall|i: int| 0 <= i < vals.len() implies (#[trigger] vals[i]).wf() by {
                    lemma_allocation_value_wf(self.allocations@[i]);
                    lemma_add_wf(
                        self.allocations@[i].spec_current_value(),
                        self.allocations@[i].future_contribution@,
                    );
                }
                lemma_sum_chunk(
                    acc@,
                    fv@,
                    next@,
                    vals,
                    k as int,
                    self.allocations@[k as int].spec_future_value(),
                );
            }
            acc = next;
            k = k + 1;
        }
        proof {
            lemma_rat_sum_take_all(vals);
        }
        Some(acc)
    }

    /// The sum of all target ratios.
    pub fn sum_target_ratios(&self) -> (r: Option<Rational>)
        requires
            self.wf(),
        ensures
            r matches Some(q) ==> rational_wf(q) && q@.eqv(self.spec_ratio_sum()),
            percent_ratios(self.allocations@) && self.allocations@.len() <= 8 ==> r is Some,
    {
        let ghost vals = target_ratios(self.allocations@);
        let mut acc = Rational::zero();
        let mut k: usize = 0;
        proof {
            assert(vals.take(0) =~= Seq::<Rat>::empty());
        }
        while k < self.allocations.len()
            invariant
                self.wf(),
                k <= self.allocations@.len(),
                vals == target_ratios(self.allocations@),
                rational_wf(acc),
                acc@.eqv(rat_sum(vals.take(k as int))),
                percent_ratios(self.allocations@) && self.allocations@.len() <= 8 ==> (int_abs(
                    acc@.n,
                ) <= k as int * spec_pow10(2 * k as nat + 2) && acc@.d <= spec_pow10(
                    2 * k as nat,
                )),
            decreases self.allocations@.len() - k,
        {
            let ratio = self.allocations[k].target_ratio;
            proof {
                if percent_ratios(self.allocations@) && self.allocations@.len() <= 8 {
                    let kk = k as int;
                    let rn = ratio@.n;
                    let rd = ratio@.d;
                    assert(1 <= rn <= 100 && 1 <= rd <= 100);
                    reveal_with_fuel(spec_pow10, 5);
                    let p0 = spec_pow10(2 * k as nat);
                    let p2 = spec_pow10(2 * k as nat + 2);
                    let p4 = spec_pow10(2 * k as nat + 4);
                    assert(p2 == 100 * p0);
                    assert(p4 == 100 * p2);
                    crate::rational::lemma_pow10_pos(2 * k as nat);
                    lemma_mul_abs_bound(acc@.n, rd, kk * p2, 100);
                    lemma_mul_abs_bound(rn, acc@.d, 100, p0);
                    lemma_mul_abs_bound(acc@.d, rd, p0, 100);
                    assert((kk * p2) * 100 == kk * p4) by (nonlinear_arith)
                        requires
                            p4 == 100 * p2,
                    ;
                    assert(p2 >= 1) by (nonlinear_arith)
                        requires
                            p2 == 100 * p0,
                            p0 >= 1,
                    ;
                    assert(p2 <= p4) by (nonlinear_arith)
                        requires
                            p4 == 100 * p2,
                            p2 >= 1,
                    ;
                    assert(kk * p4 + p4 == (kk + 1) * p4) by (nonlinear_arith);
                    assert(kk * p4 + p2 <= (kk + 1) * p4) by (nonlinear_arith)
                        requires
                            p2 <= p4,
                            kk * p4 + p4 == (kk + 1) * p4,
                    ;
                    // the raw parts stay inside the machine word
                    lemma_pow10_mono(2 * k as nat + 4, 18);
                    lemma_pow10_bounds(18);
                    lemma_mul_abs_bound(kk + 1, p4, 8, spec_pow10(18));
                    assert((kk + 1) * p4 <= 8 * 1_000_000_000_000_000_000);
                    assert(int_abs(acc@.n * ratio@.d + ratio@.n * acc@.d) <= (kk + 1) * p4);
                    assert(acc@.d * ratio@.d <= p2);
                    assert(int_abs(acc@.n * ratio@.d + ratio@.n * acc@.d)
                        <= 0x7fff_ffff_ffff_ffff);
                    assert(acc@.d * ratio@.d <= 0x7fff_ffff_ffff_ffff);
                }
            }
            let next = match acc.checked_add(ratio) {
                Some(s) => s,
                None => {
                    return None;
                },
            };
            proof {
                if percent_ratios(self.allocations@) && self.allocations@.len() <= 8 {
                    assert(2 * (k + 1) as nat == 2 * k as nat + 2);
                    assert(2 * (k + 1) as nat + 2 == 2 * k as nat + 4);
                }
            }
            proof {
                lemma_sum_chunk(
                    acc@,
                    ratio@,
                    next@,
                    vals,
                    k as int,
                    self.allocations@[k as int].target_ratio@,
                );
            }
            acc = next;
            k = k + 1;
        }
        proof {
            lemma_rat_sum_take_all(vals);
        }
        Some(acc)
    }

    /// The smallest nonnegative deposit that brings the most overweight
    /// class exactly to its target ratio, with no withdrawal from any
    /// class; zero for an empty or worthless portfolio. Ties are broken in
    /// favour of the last class, as reported order is most significant
    /// first.
    pub fn minimum_addition_to_balance(&self) -> (r: Option<Rational>)
        requires
            self.wf(),
        ensures
            r matches Some(q) ==> rational_wf(q) && (self.spec_current_value().is_zero()
                ==> q@.eqv(Rat::whole(0))) && (!self.spec_current_value().is_zero()
                ==> exists|i: int|
                is_most_overweight(self.allocations@, self.spec_current_value(), i) && q@.eqv(
                    (#[trigger] self.allocations@[i]).spec_current_value().div(
                        self.allocations@[i].target_ratio@,
                    ).sub(self.spec_current_value()),
                )),
            (whole_valued(self.allocations@) && percent_ratios(self.allocations@) && pristine(
                self.allocations@,
            ) && self.allocations@.len() <= 8) ==> r is Some,
    {
        let ghost bounded = whole_valued(self.allocations@) && percent_ratios(self.allocations@)
            && pristine(self.allocations@) && self.allocations@.len() <= 8;
        let ghost v = self.spec_current_value();
        let total = match self.current_value() {
            Some(q) => q,
            None => {
                return None;
            },
        };
        proof {
            if bounded {
                assert(total@.d == 1 && int_abs(total@.n) <= self.allocations@.len()
                    * 0x100_0000_0000);
                assert(self.allocations@.len() * 0x100_0000_0000 <= 8 * 0x100_0000_0000)
                    by (nonlinear_arith)
                    requires
                        self.allocations@.len() <= 8,
                ;
            }
        }
        if total.is_zero() {
            proof {
                lemma_portfolio_value_wf(self.allocations@);
                lemma_is_zero_congruence(total@, v);
            }
            return Some(Rational::zero());
        }
        proof {
            lemma_portfolio_value_wf(self.allocations@);
            lemma_is_zero_congruence(total@, v);
            if self.allocations@.len() == 0 {
                assert(current_values(self.allocations@) =~= Seq::<Rat>::empty());
            }
            assert(self.allocations@.len() >= 1);
        }
        let n = self.allocations.len();
        let mut best: usize = 0;
        proof {
            if bounded {
                assert(!total@.is_neg());
                assert(1 <= total@.n <= 0x1000_0000_0000);
            }
        }
        let mut best_dev = match self.allocations[0].deviation(&total) {
            Some(d) => d,
            None => {
                return None;
            },
        };
        proof {
            lemma_deviation_total_congruence(self.allocations@[0], total@, v);
            lemma_deviation_wf(self.allocations@[0], total@);
            lemma_deviation_wf(self.allocations@[0], v);
            lemma_eqv_trans(
                best_dev@,
                self.allocations@[0].spec_deviation(total@),
                self.allocations@[0].spec_deviation(v),
            );
        }
        let mut k: usize = 1;
        while k < n
            invariant
                self.wf(),
                n == self.allocations@.len(),
                v == self.spec_current_value(),
                v.wf(),
                !v.is_zero(),
                rational_wf(total),
                total@.eqv(v),
                !total@.is_zero(),
                bounded ==> (total@.d == 1 && 1 <= total@.n <= 0x1000_0000_0000),
                bounded == (whole_valued(self.allocations@) && percent_ratios(self.allocations@)
                    && pristine(self.allocations@) && self.allocations@.len() <= 8),
                1 <= k <= n,
                0 <= (best as int) < (k as int),
                rational_wf(best_dev),
                best_dev@.eqv(self.allocations@[best as int].spec_deviation(v)),
                forall|j: int|
                    0 <= j < k as int ==> (#[trigger] self.allocations@[j].spec_deviation(v)).le(
                        self.allocations@[best as int].spec_deviation(v),
                    ),
                forall|j: int|
                    (best as int) < j < (k as int) ==> (
                    #[trigger] self.allocations@[j].spec_deviation(v)).lt(
                        self.allocations@[best as int].spec_deviation(v),
                    ),
            decreases n - k,
        {
            let d = match self.allocations[k].deviation(&total) {
                Some(q) => q,
                None => {
                    return None;
                },
            };
            proof {
                lemma_deviation_total_congruence(self.allocations@[k as int], total@, v);
                lemma_deviation_wf(self.allocations@[k as int], total@);
                lemma_deviation_wf(self.allocations@[k as int], v);
                lemma_deviation_wf(self.allocations@[best as int], v);
                lemma_eqv_trans(
                    d@,
                    self.allocations@[k as int].spec_deviation(total@),
                    self.allocations@[k as int].spec_deviation(v),
                );
            }
            if best_dev.le(&d) {
                proof {
                    let db = self.allocations@[best as int].spec_deviation(v);
                    let dk = self.allocations@[k as int].spec_deviation(v);
                    lemma_le_congruence(best_dev@, d@, db, dk);
                    assert(db.le(dk));
                    assert forall|j: int| 0 <= j < k as int + 1 implies (
                    #[trigger] self.allocations@[j].spec_deviation(v)).le(dk) by {
                        if j < k as int {
                            lemma_deviation_wf(self.allocations@[j], v);
                            lemma_le_trans(self.allocations@[j].spec_deviation(v), db, dk);
                        }
                    }
                }
                best = k;
                best_dev = d;
            } else {
                proof {
                    let db = self.allocations@[best as int].spec_deviation(v);
                    let dk = self.allocations@[k as int].spec_deviation(v);
                    lemma_le_congruence(best_dev@, d@, db, dk);
                    assert(!db.le(dk));
                    assert(dk.lt(db));
                }
            }
            k = k + 1;
        }
        let cv_b = self.allocations[best].current_value();
        let ratio_b = self.allocations[best].target_ratio;
        proof {
            if bounded {
                assert(cv_b@.d == 1 && int_abs(cv_b@.n) <= 0x100_0000_0000);
                lemma_mul_abs_bound(cv_b@.n, ratio_b@.d, 0x100_0000_0000, 100);
                assert(cv_b@.d * ratio_b@.n == ratio_b@.n) by (nonlinear_arith)
                    requires
                        cv_b@.d == 1,
                ;
                assert(int_abs(cv_b@.d * ratio_b@.n) <= 100);
            }
        }
        let min_new = match cv_b.checked_div(ratio_b) {
            Some(q) => q,
            None => {
                return None;
            },
        };
        proof {
            if bounded {
                lemma_mul_abs_bound(cv_b@.n, ratio_b@.d, 0x100_0000_0000, 100);
                assert(int_abs(min_new@.n) <= 0x6400_0000_0000 && min_new@.d <= 100);
                lemma_mul_abs_bound(total@.n, min_new@.d, 0x1000_0000_0000, 100);
                assert(min_new@.n * total@.d == min_new@.n && min_new@.d * total@.d
                    == min_new@.d) by (nonlinear_arith)
                    requires
                        total@.d == 1,
                ;
                assert(int_abs(min_new@.n * total@.d - total@.n * min_new@.d)
                    <= 0x6_A400_0000_0000);
            }
        }
        let r = min_new.checked_sub(total);
        proof {
            if bounded {
                assert(r is Some);
            }
            match r {
                Some(q) => {
                    let b = best as int;
                    let scv = self.allocations@[b].spec_current_value();
                    let ratio = self.allocations@[b].target_ratio@;
                    lemma_allocation_value_wf(self.allocations@[b]);
                    lemma_div_congruence(cv_b@, ratio, scv, ratio);
                    lemma_div_wf(cv_b@, ratio);
                    lemma_div_wf(scv, ratio);
                    lemma_eqv_trans(min_new@, cv_b@.div(ratio), scv.div(ratio));
                    lemma_sub_congruence(min_new@, total@, scv.div(ratio), v);
                    lemma_add_wf(min_new@, total@.neg());
                    lemma_add_wf(scv.div(ratio), v.neg());
                    lemma_eqv_trans(q@, min_new@.sub(total@), scv.div(ratio).sub(v));
                    assert(is_most_overweight(self.allocations@, v, b));
                },
                None => {},
            }
        }
        r
    }

}

/// The exact money needed to move each class — with weight `w[i]`, the
/// class's share of the new grand total — from its own deviation `dv[i]` to
/// the common level `level`.
pub open spec fn weighted_gaps(w: Seq<Rat>, dv: Seq<Rat>, level: Rat) -> Seq<Rat> {
    Seq::new(w.len(), |i: int| w[i].mul(level.sub(dv[i])))
}

/// The total money consumed by raising every class to `level`.
pub open spec fn spread(w: Seq<Rat>, dv: Seq<Rat>, level: Rat) -> Rat {
    rat_sum(weighted_gaps(w, dv, level))
}

pub proof fn lemma_weighted_gaps_wf(w: Seq<Rat>, dv: Seq<Rat>, level: Rat)
    requires
        w.len() == dv.len(),
        all_wf(w),
        all_wf(dv),
        level.wf(),
    ensures
        all_wf(weighted_gaps(w, dv, level)),
        spread(w, dv, level).wf(),
{
    let gaps = weighted_gaps(w, dv, level);
    assert forall|i: int| 0 <= i < gaps.len() implies (#[trigger] gaps[i]).wf() by {
        assert(w[i].wf());
        assert(dv[i].wf());
        lemma_add_wf(level, dv[i].neg());
        lemma_add_wf(w[i], level.sub(dv[i]));
    }
    lemma_rat_sum_wf(gaps);
}

pub proof fn lemma_all_wf_take(s: Seq<Rat>, k: int)
    requires
        all_wf(s),
        0 <= k <= s.len(),
    ensures
        all_wf(s.take(k)),
{
    assert forall|i: int| 0 <= i < s.take(k).len() implies (#[trigger] s.take(k)[i]).wf() by {
        assert(s[i].wf());
    }
}

/// One more class at the same level costs one more weighted gap.
pub proof fn lemma_spread_take_step(w: Seq<Rat>, dv: Seq<Rat>, level: Rat, k: int)
    requires
        w.len() == dv.len(),
        0 <= k < w.len(),
    ensures
        spread(w.take(k + 1), dv.take(k + 1), level) == spread(w.take(k), dv.take(k), level).add(
            w[k].mul(level.sub(dv[k])),
        ),
{
    assert(weighted_gaps(w.take(k + 1), dv.take(k + 1), level) =~= weighted_gaps(
        w,
        dv,
        level,
    ).take(k + 1));
    assert(weighted_gaps(w.take(k), dv.take(k), level) =~= weighted_gaps(w, dv, level).take(k));
    lemma_rat_sum_take_step(weighted_gaps(w, dv, level), k);
}

/// Bringing a class to its own level costs nothing.
pub proof fn lemma_spread_extend_same_level(w: Seq<Rat>, dv: Seq<Rat>, k: int)
    requires
        w.len() == dv.len(),
        0 <= k < w.len(),
        all_wf(w),
        all_wf(dv),
    ensures
        spread(w.take(k + 1), dv.take(k + 1), dv[k]).eqv(spread(w.take(k), dv.take(k), dv[k])),
{
    lemma_spread_take_step(w, dv, dv[k], k);
    lemma_sub_self_zero(dv[k]);
    lemma_mul_zero_valued(w[k], dv[k].sub(dv[k]));
    lemma_all_wf_take(w, k);
    lemma_all_wf_take(dv, k);
    lemma_weighted_gaps_wf(w.take(k), dv.take(k), dv[k]);
    lemma_add_wf(dv[k], dv[k].neg());
    lemma_add_wf(w[k], dv[k].sub(dv[k]));
    lemma_add_zero_valued(spread(w.take(k), dv.take(k), dv[k]), w[k].mul(dv[k].sub(dv[k])));
}

/// Changing the common level changes the cost by the summed weights times
/// the change of level.
#[verifier::spinoff_prover]
pub proof fn lemma_spread_shift(w: Seq<Rat>, dv: Seq<Rat>, l1: Rat, l2: Rat)
    requires
        w.len() == dv.len(),
        all_wf(w),
        all_wf(dv),
        l1.wf(),
        l2.wf(),
    ensures
        spread(w, dv, l2).eqv(spread(w, dv, l1).add(rat_sum(w).mul(l2.sub(l1)))),
    decreases w.len(),
{
    let g = l2.sub(l1);
    lemma_add_wf(l2, l1.neg());
    lemma_weighted_gaps_wf(w, dv, l1);
    lemma_weighted_gaps_wf(w, dv, l2);
    lemma_rat_sum_wf(w);
    lemma_add_wf(rat_sum(w), g);
    if w.len() == 0 {
        assert(weighted_gaps(w, dv, l2) =~= Seq::<Rat>::empty());
        assert(weighted_gaps(w, dv, l1) =~= Seq::<Rat>::empty());
        assert(rat_sum(w) == Rat::whole(0));
        lemma_mul_zero_valued(g, Rat::whole(0));
        lemma_add_zero_valued(Rat::whole(0), Rat::whole(0).mul(g));
    } else {
        let w2 = w.drop_last();
        let dv2 = dv.drop_last();
        let wl = w.last();
        let dl = dv.last();
        assert forall|i: int| 0 <= i < w2.len() implies (#[trigger] w2[i]).wf() by {
            assert(w[i].wf());
        }
        assert forall|i: int| 0 <= i < dv2.len() implies (#[trigger] dv2[i]).wf() by {
            assert(dv[i].wf());
        }
        assert(wl.wf());
        assert(dl.wf());
        lemma_spread_shift(w2, dv2, l1, l2);
        // peel the last weighted gap off both spreads
        assert(weighted_gaps(w2, dv2, l1) =~= weighted_gaps(w, dv, l1).drop_last());
        assert(weighted_gaps(w2, dv2, l2) =~= weighted_gaps(w, dv, l2).drop_last());
        assert(weighted_gaps(w, dv, l1).last() == wl.mul(l1.sub(dl)));
        assert(weighted_gaps(w, dv, l2).last() == wl.mul(l2.sub(dl)));
        let s1p = spread(w2, dv2, l1);
        let s2p = spread(w2, dv2, l2);
        let b1 = wl.mul(l1.sub(dl));
        let b2 = wl.mul(l2.sub(dl));
        assert(spread(w, dv, l1) == s1p.add(b1));
        assert(spread(w, dv, l2) == s2p.add(b2));
        // b2 == b1 + wl * g, up to value
        lemma_add_wf(l1, dl.neg());
        lemma_add_wf(l2, dl.neg());
        lemma_add_wf(l1.sub(dl), g);
        lemma_gap_rewrite(l1, l2, dl);
        lemma_mul_congruence(wl, l2.sub(dl), wl, l1.sub(dl).add(g));
        lemma_mul_distrib(wl, l1.sub(dl), g);
        lemma_add_wf(wl, l2.sub(dl));
        lemma_add_wf(wl, l1.sub(dl).add(g));
        lemma_add_wf(wl, l1.sub(dl));
        lemma_add_wf(wl, g);
        lemma_add_wf(wl.mul(l1.sub(dl)), wl.mul(g));
        lemma_eqv_trans(b2, wl.mul(l1.sub(dl).add(g)), b1.add(wl.mul(g)));
        // combine with the induction hypothesis and regroup
        lemma_weighted_gaps_wf(w2, dv2, l1);
        lemma_weighted_gaps_wf(w2, dv2, l2);
        lemma_rat_sum_wf(w2);
        lemma_add_wf(rat_sum(w2), g);
        let sw2g = rat_sum(w2).mul(g);
        let wlg = wl.mul(g);
        lemma_add_wf(rat_sum(w2), wlg);
        lemma_add_wf(s1p, sw2g);
        lemma_add_wf(b1, wlg);
        lemma_add_congruence(s2p, b2, s1p.add(sw2g), b1.add(wlg));
        lemma_add_wf(s2p, b2);
        lemma_add_wf(s1p.add(sw2g), b1.add(wlg));
        lemma_add_shuffle(s1p, sw2g, b1, wlg);
        lemma_add_wf(s1p, b1);
        lemma_add_wf(sw2g, wlg);
        lemma_add_wf(s1p.add(b1), sw2g.add(wlg));
        lemma_eqv_trans(s2p.add(b2), s1p.add(sw2g).add(b1.add(wlg)), s1p.add(b1).add(sw2g.add(wlg)));
        // the two scaled weight sums collapse: S' * g + wl * g == S * g
        lemma_mul_distrib_right(rat_sum(w2), wl, g);
        assert(rat_sum(w) == rat_sum(w2).add(wl));
        lemma_add_wf(rat_sum(w2).add(wl), g);
        // go from (S1' + b1) + (S'g + wl g) to (S1' + b1) + S g
        assert(sw2g.add(wlg).eqv(rat_sum(w).mul(g)));
        lemma_add_congruence(s1p.add(b1), sw2g.add(wlg), s1p.add(b1), rat_sum(w).mul(g));
        lemma_add_wf(s1p.add(b1), rat_sum(w).mul(g));
        lemma_eqv_trans(
            s2p.add(b2),
            s1p.add(b1).add(sw2g.add(wlg)),
            s1p.add(b1).add(rat_sum(w).mul(g)),
        );
    }
}

/// A snapshot small enough that the engine's pre-walk bookkeeping stays in
/// machine range: whole-dollar class totals, percent-grained ratios, a
/// handful of classes, canonical zero pending contributions, and a
/// whole-dollar lump sum.
pub open spec fn bounded_snapshot(s: Seq<AssetAllocation>, c: Rat) -> bool {
    &&& whole_valued(s)
    &&& percent_ratios(s)
    &&& pristine(s)
    &&& s.len() <= 8
    &&& c.d == 1
    &&& int_abs(c.n) <= 0x100_0000_0000
}

/// Everything about an allocation except its pending contribution: the
/// class, the target ratio, and the holdings with their cached total.
pub open spec fn alloc_shape(a: AssetAllocation) -> (AssetClass, Rational, Seq<Asset>, Rational) {
    (a.asset_class, a.target_ratio, a.underlying_assets@, a.current_total)
}

/// Give every allocation its target share of the contribution, in order.
/// The fallback for an empty portfolio, where deviations are undefined.
fn proportionally_allocate(portfolio: Portfolio, contribution: Rational) -> (r: Result<
    Portfolio,
    RebalanceError,
>)
    requires
        portfolio.wf(),
        rational_wf(contribution),
    ensures
        r matches Err(e) ==> e == RebalanceError::Overflow,
        r matches Ok(out) ==> {
            &&& out.wf()
            &&& out.allocations@.len() == portfolio.allocations@.len()
            &&& forall|i: int|
                0 <= i < out.allocations@.len() ==> alloc_shape(#[trigger] out.allocations@[i])
                    == alloc_shape(portfolio.allocations@[i])
            &&& forall|i: int|
                0 <= i < out.allocations@.len() ==> (
                #[trigger] out.allocations@[i]).spec_future_contribution().eqv(
                    portfolio.allocations@[i].spec_future_contribution().add(
                        portfolio.allocations@[i].target_ratio@.mul(contribution@),
                    ),
                )
        },
        (pristine(portfolio.allocations@) && percent_ratios(portfolio.allocations@)
            && contribution@.d == 1 && int_abs(contribution@.n) <= 0x100_0000_0000) ==> r is Ok,
{
    let mut src = portfolio.allocations;
    let ghost s0 = src@;
    let mut out: Vec<AssetAllocation> = Vec::new();
    while src.len() > 0
        invariant
            allocs_wf(s0),
            s0 == portfolio.allocations@,
            rational_wf(contribution),
            out@.len() + src@.len() == s0.len(),
            src@ == s0.skip(out@.len() as int),
            forall|i: int| 0 <= i < out@.len() ==> (#[trigger] out@[i]).wf(),
            forall|i: int|
                0 <= i < out@.len() ==> alloc_shape(#[trigger] out@[i]) == alloc_shape(s0[i]),
            forall|i: int|
                0 <= i < out@.len() ==> (#[trigger] out@[i]).spec_future_contribution().eqv(
                    s0[i].spec_future_contribution().add(s0[i].target_ratio@.mul(contribution@)),
                ),
        decreases src@.len(),
    {
        let ghost k = out@.len() as int;
        let mut a = src.remove(0);
        proof {
            assert(a == s0[k]);
            assert(s0[k].wf());
            assert(src@ =~= s0.skip(k + 1));
        }
        proof {
            if pristine(s0) && percent_ratios(s0) && contribution@.d == 1 && int_abs(
                contribution@.n,
            ) <= 0x100_0000_0000 {
                lemma_mul_abs_bound(a.target_ratio@.n, contribution@.n, 100, 0x100_0000_0000);
                assert(a.target_ratio@.d * contribution@.d == a.target_ratio@.d)
                    by (nonlinear_arith)
                    requires
                        contribution@.d == 1,
                ;
            }
        }
        let amount = match a.target_ratio.checked_mul(contribution) {
            Some(v) => v,
            None => {
                return Err(RebalanceError::Overflow);
            },
        };
        proof {
            if pristine(s0) && percent_ratios(s0) && contribution@.d == 1 && int_abs(
                contribution@.n,
            ) <= 0x100_0000_0000 {
                lemma_mul_abs_bound(a.target_ratio@.n, contribution@.n, 100, 0x100_0000_0000);
                assert(a.target_ratio@.d * contribution@.d == a.target_ratio@.d)
                    by (nonlinear_arith)
                    requires
                        contribution@.d == 1,
                ;
                assert(int_abs(amount@.n) <= 0x6400_0000_0000 && amount@.d <= 100);
                assert(a.future_contribution@ == Rat::whole(0));
                assert(a.future_contribution@.n * amount@.d == 0 && amount@.n
                    * a.future_contribution@.d == amount@.n && a.future_contribution@.d
                    * amount@.d == amount@.d) by (nonlinear_arith)
                    requires
                        a.future_contribution@.n == 0,
                        a.future_contribution@.d == 1,
                ;
            }
        }
        let ghost fc_before = a.spec_future_contribution();
        match a.add_contribution(amount) {
            Ok(()) => {},
            Err(_) => {
                return Err(RebalanceError::Overflow);
            },
        }
        proof {
            let ratio_c = s0[k].target_ratio@.mul(contribution@);
            lemma_add_wf(s0[k].target_ratio@, contribution@);
            lemma_add_wf(fc_before, amount@);
            lemma_add_wf(fc_before, ratio_c);
            lemma_add_congruence(fc_before, amount@, fc_before, ratio_c);
            lemma_eqv_trans(
                a.spec_future_contribution(),
                fc_before.add(amount@),
                fc_before.add(ratio_c),
            );
        }
        out.push(a);
    }
    Ok(Portfolio { allocations: out })
}

/// The deviation a class starts from, before any contribution of this run:
/// its current value against the stated total, relative to its target.
pub open spec fn base_deviation(a: AssetAllocation, t: Rat) -> Rat {
    a.spec_current_value().div(t).div(a.target_ratio@).sub(Rat::whole(1))
}

/// The engine's priority order: for a deposit, most underweight first; for a
/// withdrawal, most overweight first.
pub open spec fn prioritized_by_deviation(s: Seq<AssetAllocation>, t: Rat, deposit: bool) -> bool {
    if deposit {
        forall|i: int, j: int|
            0 <= i < j < s.len() ==> (#[trigger] base_deviation(s[i], t)).le(
                #[trigger] base_deviation(s[j], t),
            )
    } else {
        forall|i: int, j: int|
            0 <= i < j < s.len() ==> (#[trigger] base_deviation(s[j], t)).le(
                #[trigger] base_deviation(s[i], t),
            )
    }
}

/// The water-filling outcome: one common deviation level against the new
/// total fixes every class's contribution. A class starting on the near
/// side of the level is brought exactly to it — its contribution is its
/// target value times the remaining distance — and a class starting at or
/// beyond the level is left untouched.
pub open spec fn levelled_outcome(
    s: Seq<AssetAllocation>,
    t: Rat,
    level: Rat,
    deposit: bool,
) -> bool {
    forall|j: int|
        #![trigger s[j]]
        0 <= j < s.len() ==> {
            let dev = base_deviation(s[j], t);
            let share = t.mul(s[j].target_ratio@).mul(level.sub(dev));
            if deposit {
                (dev.lt(level) ==> s[j].spec_future_contribution().eqv(share)) && (level.le(dev)
                    ==> s[j].spec_future_contribution().is_zero())
            } else {
                (level.lt(dev) ==> s[j].spec_future_contribution().eqv(share)) && (dev.le(level)
                    ==> s[j].spec_future_contribution().is_zero())
            }
        }
}

/// Every assigned contribution carries the lump sum's sign: deposits only
/// add money to a class, withdrawals only take it.
pub open spec fn changes_signed(s: Seq<AssetAllocation>, deposit: bool) -> bool {
    forall|j: int|
        0 <= j < s.len() ==> (if deposit {
            !(#[trigger] s[j].spec_future_contribution()).is_neg()
        } else {
            s[j].spec_future_contribution().le(Rat::whole(0))
        })
}

/// With no pending contribution, the measured deviation is the base
/// deviation, whatever representation the total takes.
proof fn lemma_base_deviation_eqv(a: AssetAllocation, t1: Rat, t2: Rat)
    requires
        a.wf(),
        a.spec_future_contribution().is_zero(),
        t1.wf(),
        t2.wf(),
        t1.eqv(t2),
        !t1.is_zero(),
    ensures
        !t2.is_zero(),
        base_deviation(a, t2).wf(),
        a.spec_deviation(t1).eqv(base_deviation(a, t2)),
{
    let cv = a.spec_current_value();
    let fv = a.spec_future_value();
    let ratio = a.target_ratio@;
    lemma_allocation_value_wf(a);
    lemma_add_wf(cv, a.future_contribution@);
    lemma_is_zero_congruence(t1, t2);
    lemma_add_zero_valued(cv, a.future_contribution@);
    // fv ~ cv, so fv / t1 ~ cv / t2, and so on down the chain
    lemma_div_congruence(fv, t1, cv, t2);
    lemma_div_wf(fv, t1);
    lemma_div_wf(cv, t2);
    lemma_div_congruence(fv.div(t1), ratio, cv.div(t2), ratio);
    lemma_div_wf(fv.div(t1), ratio);
    lemma_div_wf(cv.div(t2), ratio);
    lemma_sub_congruence(
        fv.div(t1).div(ratio),
        Rat::whole(1),
        cv.div(t2).div(ratio),
        Rat::whole(1),
    );
    lemma_add_wf(cv.div(t2).div(ratio), Rat::whole(1).neg());
}

/// The inputs on which rebalancing is owed: a nonzero contribution, target
/// ratios summing to exactly 1, a withdrawal smaller in magnitude than the
/// holdings, and a nonnegative current value.
pub open spec fn valid_rebalance_inputs(s: Seq<AssetAllocation>, c: Rat) -> bool {
    &&& !c.is_zero()
    &&& rat_sum(target_ratios(s)).eqv(Rat::whole(1))
    &&& !(c.is_neg() && rat_sum(current_values(s)).le(c.abs()))
    &&& !rat_sum(current_values(s)).is_neg()
}

/// Money is conserved: the pending contributions sum exactly to the lump sum.
pub open spec fn conserves(out: Seq<AssetAllocation>, c: Rat) -> bool {
    rat_sum(future_contributions(out)).eqv(c)
}

/// Some element of `b` has exactly this allocation's class, ratio and
/// holdings.
pub open spec fn shape_in(a: AssetAllocation, b: Seq<AssetAllocation>) -> bool {
    exists|j: int| 0 <= j < b.len() && alloc_shape(a) == alloc_shape(#[trigger] b[j])
}

/// The classes, ratios and holdings of `a` are exactly those of `b`, in some
/// order; only the pending contributions may differ.
pub open spec fn shapes_preserved(a: Seq<AssetAllocation>, b: Seq<AssetAllocation>) -> bool {
    &&& a.len() == b.len()
    &&& forall|i: int| 0 <= i < a.len() ==> shape_in(#[trigger] a[i], b)
    &&& forall|j: int| 0 <= j < b.len() ==> shape_in(#[trigger] b[j], a)
}

/// Every allocation received exactly its target share of the lump sum.
pub open spec fn proportional_result(
    out: Seq<AssetAllocation>,
    src: Seq<AssetAllocation>,
    c: Rat,
) -> bool {
    &&& out.len() == src.len()
    &&& forall|i: int|
        0 <= i < out.len() ==> alloc_shape(#[trigger] out[i]) == alloc_shape(src[i])
            && out[i].spec_future_contribution().eqv(src[i].target_ratio@.mul(c))
}

/// An allocation paired with a well-formed deviation for the stated total.
spec fn ranked_ok(r: Ranked, t: Rat) -> bool {
    &&& r.alloc.wf()
    &&& rational_wf(r.dev)
    &&& r.alloc.spec_future_contribution().is_zero()
    &&& r.dev@.eqv(r.alloc.spec_deviation(t))
}

/// A well-formed deviation for a well-formed allocation and nonzero total.
proof fn lemma_deviation_wf(a: AssetAllocation, t: Rat)
    requires
        a.wf(),
        t.wf(),
        !t.is_zero(),
    ensures
        a.spec_deviation(t).wf(),
{
    lemma_allocation_value_wf(a);
    lemma_add_wf(a.spec_current_value(), a.future_contribution@);
    lemma_div_wf(a.spec_future_value(), t);
    lemma_div_wf(a.spec_future_value().div(t), a.target_ratio@);
    lemma_add_wf(a.spec_future_value().div(t).div(a.target_ratio@), Rat::whole(1).neg());
}

/// Deviation depends on the total only through its value.
proof fn lemma_deviation_total_congruence(a: AssetAllocation, t1: Rat, t2: Rat)
    requires
        a.wf(),
        t1.wf(),
        t2.wf(),
        t1.eqv(t2),
        !t1.is_zero(),
    ensures
        !t2.is_zero(),
        a.spec_deviation(t1).eqv(a.spec_deviation(t2)),
{
    let fv = a.spec_future_value();
    let ratio = a.target_ratio@;
    lemma_allocation_value_wf(a);
    lemma_add_wf(a.spec_current_value(), a.future_contribution@);
    lemma_is_zero_congruence(t1, t2);
    lemma_div_congruence(fv, t1, fv, t2);
    lemma_div_wf(fv, t1);
    lemma_div_wf(fv, t2);
    lemma_div_congruence(fv.div(t1), ratio, fv.div(t2), ratio);
    lemma_div_wf(fv.div(t1), ratio);
    lemma_div_wf(fv.div(t2), ratio);
    lemma_sub_congruence(fv.div(t1).div(ratio), Rat::whole(1), fv.div(t2).div(ratio), Rat::whole(1));
}

/// The index of the most overweight class: no class deviates more, and it is
/// the last class attaining that deviation.
pub open spec fn is_most_overweight(s: Seq<AssetAllocation>, total: Rat, i: int) -> bool {
    &&& 0 <= i < s.len()
    &&& forall|k: int|
        0 <= k < s.len() ==> (#[trigger] s[k].spec_deviation(total)).le(s[i].spec_deviation(total))
    &&& forall|k: int|
        i < k < s.len() ==> (#[trigger] s[k].spec_deviation(total)).lt(s[i].spec_deviation(total))
}

/// The deviations of a ranked sequence, in walk order.
spec fn dev_seq(s: Seq<Ranked>) -> Seq<Rat> {
    s.map_values(|r: Ranked| r.dev@)
}

/// Each ranked class's target value under the new grand total.
spec fn weight_seq(s: Seq<Ranked>, t: Rat) -> Seq<Rat> {
    Seq::new(s.len(), |i: int| t.mul(s[i].alloc.target_ratio@))
}

/// Pair every allocation with its deviation against the new total.
#[verifier::spinoff_prover]
fn build_ranked(src: Vec<AssetAllocation>, new_total: &Rational) -> (r: Result<
    Vec<Ranked>,
    RebalanceError,
>)
    requires
        allocs_wf(src@),
        forall|i: int|
            0 <= i < src@.len() ==> (#[trigger] src@[i]).spec_future_contribution().is_zero(),
        rational_wf(*new_total),
        !new_total@.is_zero(),
    ensures
        r matches Ok(v) ==> v@.len() == src@.len() && (forall|i: int|
            0 <= i < v@.len() ==> (#[trigger] v@[i]).alloc == src@[i] && ranked_ok(
                v@[i],
                new_total@,
            )),
        r matches Err(e) ==> e == RebalanceError::Overflow,
{
    let ghost s0 = src@;
    let mut src = src;
    let mut ranked: Vec<Ranked> = Vec::new();
    while src.len() > 0
        invariant
            allocs_wf(s0),
            rational_wf(*new_total),
            !new_total@.is_zero(),
            forall|i: int|
                0 <= i < s0.len() ==> (#[trigger] s0[i]).spec_future_contribution().is_zero(),
            ranked@.len() + src@.len() == s0.len(),
            src@ == s0.skip(ranked@.len() as int),
            forall|i: int|
                0 <= i < ranked@.len() ==> (#[trigger] ranked@[i]).alloc == s0[i] && ranked_ok(
                    ranked@[i],
                    new_total@,
                ),
        decreases src@.len(),
    {
        let ghost k = ranked@.len() as int;
        let a = src.remove(0);
        proof {
            assert(a == s0[k]);
            assert(s0[k].wf());
            assert(src@ =~= s0.skip(k + 1));
        }
        let dev = match a.deviation(new_total) {
            Some(d) => d,
            None => {
                return Err(RebalanceError::Overflow);
            },
        };
        ranked.push(Ranked { alloc: a, dev });
    }
    Ok(ranked)
}



/// Contributions that fill the first `stop` weighted gaps exactly, and are
/// zero beyond, sum to whatever the level costs: the whole lump sum.
#[verifier::spinoff_prover]
proof fn lemma_assigned_conserves(
    outs: Seq<AssetAllocation>,
    oseq: Seq<Ranked>,
    t: Rat,
    lf: Rat,
    stop: int,
    c: Rat,
)
    requires
        0 <= stop <= oseq.len(),
        outs.len() == oseq.len(),
        t.wf(),
        lf.wf(),
        c.wf(),
        forall|i: int| 0 <= i < oseq.len() ==> ranked_ok(#[trigger] oseq[i], t),
        forall|k: int| 0 <= k < outs.len() ==> (#[trigger] outs[k]).wf(),
        forall|k: int|
            0 <= k < stop ==> (#[trigger] outs[k]).spec_future_contribution().eqv(
                weighted_gaps(weight_seq(oseq, t).take(stop), dev_seq(oseq).take(stop), lf)[k],
            ),
        forall|k: int|
            stop <= k < outs.len() ==> (#[trigger] outs[k]).spec_future_contribution().is_zero(),
        spread(weight_seq(oseq, t).take(stop), dev_seq(oseq).take(stop), lf).eqv(c),
    ensures
        conserves(outs, c),
{
    let w = weight_seq(oseq, t);
    let dv = dev_seq(oseq);
    let gaps = weighted_gaps(w.take(stop), dv.take(stop), lf);
    let fcs = future_contributions(outs);
    assert forall|i2: int| 0 <= i2 < fcs.len() implies (#[trigger] fcs[i2]).wf() by {
        assert(outs[i2].wf());
    }
    assert forall|i2: int| stop <= i2 < fcs.len() implies (#[trigger] fcs[i2]).is_zero() by {
        assert(outs[i2].spec_future_contribution().is_zero());
    }
    lemma_rat_sum_zero_tail(fcs, stop);
    assert forall|i: int| 0 <= i < w.len() implies (#[trigger] w[i]).wf() by {
        assert(ranked_ok(oseq[i], t));
        lemma_add_wf(t, oseq[i].alloc.target_ratio@);
    }
    assert forall|i: int| 0 <= i < dv.len() implies (#[trigger] dv[i]).wf() by {
        assert(ranked_ok(oseq[i], t));
    }
    lemma_all_wf_take(w, stop);
    lemma_all_wf_take(dv, stop);
    lemma_weighted_gaps_wf(w.take(stop), dv.take(stop), lf);
    assert forall|i2: int| 0 <= i2 < fcs.take(stop).len() implies (#[trigger] fcs.take(
        stop,
    )[i2]).wf() && fcs.take(stop)[i2].eqv(gaps[i2]) by {
        assert(outs[i2].wf());
        assert(outs[i2].spec_future_contribution().eqv(gaps[i2]));
    }
    lemma_rat_sum_congruence(fcs.take(stop), gaps);
    lemma_rat_sum_wf(fcs.take(stop));
    lemma_rat_sum_wf(fcs);
    lemma_eqv_trans(rat_sum(fcs), rat_sum(fcs.take(stop)), rat_sum(gaps));
    lemma_eqv_trans(rat_sum(fcs), rat_sum(gaps), c);
}


/// Proportional shares carry the lump sum's sign.
proof fn lemma_pf_signed(outs: Seq<AssetAllocation>, s0: Seq<AssetAllocation>, c: Rat)
    requires
        allocs_wf(s0),
        c.wf(),
        forall|i: int| 0 <= i < outs.len() ==> (#[trigger] outs[i]).wf(),
        proportional_result(outs, s0, c),
    ensures
        changes_signed(outs, !c.is_neg()),
{
    assert forall|j: int| 0 <= j < outs.len() implies (if !c.is_neg() {
        !(#[trigger] outs[j].spec_future_contribution()).is_neg()
    } else {
        outs[j].spec_future_contribution().le(Rat::whole(0))
    }) by {
        assert(s0[j].wf());
        let ratio = s0[j].target_ratio@;
        let share = ratio.mul(c);
        lemma_add_wf(ratio, c);
        lemma_mul_sign(ratio, c);
        assert(outs[j].spec_future_contribution().eqv(share));
        lemma_is_zero_congruence(outs[j].spec_future_contribution(), share);
        if c.is_neg() {
            assert(c.le(Rat::whole(0)));
            assert(share.le(Rat::whole(0)));
            lemma_le_congruence(
                outs[j].spec_future_contribution(),
                Rat::whole(0),
                share,
                Rat::whole(0),
            );
        }
    }
}

/// The deviations in walk order: ascending for a deposit, so the most
/// underweight class comes first; descending for a withdrawal.
spec fn devs_ordered(dv: Seq<Rat>, withdrawing: bool) -> bool {
    forall|i: int, j: int|
        0 <= i < j < dv.len() ==> (if withdrawing {
            (#[trigger] dv[j]).le(#[trigger] dv[i])
        } else {
            dv[i].le(dv[j])
        })
}

/// Walk the classes in priority order, tracking the money still to place
/// and the summed target values of the classes visited so far. Each step
/// either levels the visited classes with the next class, or runs out of
/// money and stops. Returns how many classes are affected and the common
/// deviation level they are brought to; the exact cost of that level is the
/// whole lump sum.
#[verifier::rlimit(50)]
#[verifier::spinoff_prover]
fn walk_levels(order: &Vec<Ranked>, new_total: &Rational, contribution: &Rational) -> (r: Result<
    (usize, Rational),
    RebalanceError,
>)
    requires
        order@.len() >= 1,
        forall|i: int| 0 <= i < order@.len() ==> ranked_ok(#[trigger] order@[i], new_total@),
        rational_wf(*new_total),
        rational_wf(*contribution),
        Rat::whole(0).lt(new_total@),
        !new_total@.is_zero(),
        !contribution@.is_zero(),
        devs_ordered(dev_seq(order@), contribution@.is_neg()),
    ensures
        r matches Ok(sl) ==> 1 <= sl.0 as int <= order@.len() && rational_wf(sl.1) && spread(
            weight_seq(order@, new_total@).take(sl.0 as int),
            dev_seq(order@).take(sl.0 as int),
            sl.1@,
        ).eqv(contribution@),
        r matches Ok(sl) ==> (forall|j: int|
            0 <= j < sl.0 as int ==> (contribution@.is_neg() ==> sl.1@.le(
                #[trigger] dev_seq(order@)[j],
            )) && (!contribution@.is_neg() ==> dev_seq(order@)[j].le(sl.1@))),
        r matches Ok(sl) ==> (forall|j: int|
            sl.0 as int <= j < order@.len() ==> (contribution@.is_neg() ==> (
            #[trigger] dev_seq(order@)[j]).le(sl.1@)) && (!contribution@.is_neg() ==> sl.1@.le(
                dev_seq(order@)[j],
            ))),
        r matches Err(e) ==> e == RebalanceError::Overflow,
{
    let ghost oseq = order@;
    let ghost t = new_total@;
    let ghost c = contribution@;
    let ghost dv = dev_seq(oseq);
    let ghost w = weight_seq(oseq, t);
    let n = order.len();
    proof {
        assert forall|i: int| 0 <= i < dv.len() implies (#[trigger] dv[i]).wf() by {
            assert(ranked_ok(oseq[i], t));
        }
        assert forall|i: int| 0 <= i < w.len() implies (#[trigger] w[i]).wf() && Rat::whole(0).lt(
            w[i],
        ) by {
            assert(ranked_ok(oseq[i], t));
            lemma_add_wf(t, oseq[i].alloc.target_ratio@);
            lemma_mul_pos(t, oseq[i].alloc.target_ratio@);
        }
    }
    let mut amount_left = *contribution;
    let mut summed = Rational::zero();
    let mut stop: usize = 0;
    let mut final_level = Rational::zero();
    let mut idx: usize = 0;
    proof {
        assert(w.take(0) =~= Seq::<Rat>::empty());
        assert(dv.take(0) =~= Seq::<Rat>::empty());
        assert(weighted_gaps(w.take(0), dv.take(0), dv[0]) =~= Seq::<Rat>::empty());
        lemma_sub_zero(c);
        assert(c.sub(spread(w.take(0), dv.take(0), dv[0])) == c);
    }
    while idx < n
        invariant_except_break
            0 <= idx < n,
            n as int == oseq.len(),
            oseq.len() >= 1,
            order@ == oseq,
            dv == dev_seq(oseq),
            w == weight_seq(oseq, t),
            all_wf(dv),
            forall|i: int| 0 <= i < w.len() ==> (#[trigger] w[i]).wf() && Rat::whole(0).lt(w[i]),
            forall|i: int| 0 <= i < oseq.len() ==> ranked_ok(#[trigger] oseq[i], t),
            rational_wf(*new_total),
            rational_wf(*contribution),
            rational_wf(amount_left),
            rational_wf(summed),
            t == new_total@,
            c == contribution@,
            c.wf(),
            Rat::whole(0).lt(t),
            !t.is_zero(),
            !amount_left@.is_zero(),
            amount_left@.is_neg() == c.is_neg(),
            devs_ordered(dv, c.is_neg()),
            amount_left@.eqv(
                c.sub(spread(w.take(idx as int), dv.take(idx as int), dv[idx as int])),
            ),
            summed@.eqv(rat_sum(w.take(idx as int))),
        ensures
            1 <= stop as int <= n as int,
            rational_wf(final_level),
            spread(w.take(stop as int), dv.take(stop as int), final_level@).eqv(c),
            forall|j: int|
                0 <= j < stop as int ==> (c.is_neg() ==> final_level@.le(#[trigger] dv[j])) && (
                !c.is_neg() ==> dv[j].le(final_level@)),
            forall|j: int|
                stop as int <= j < n as int ==> (c.is_neg() ==> (#[trigger] dv[j]).le(
                    final_level@,
                )) && (!c.is_neg() ==> final_level@.le(dv[j])),
        decreases n - idx,
    {
        let ghost i = idx as int;
        let level_idx = order[idx].dev;
        let ratio_idx = order[idx].alloc.target_ratio;
        proof {
            assert(ranked_ok(oseq[i], t));
            assert(level_idx@ == dv[i]);
            assert(w[i] == t.mul(ratio_idx@));
        }
        let wx = match new_total.checked_mul(ratio_idx) {
            Some(q) => q,
            None => {
                return Err(RebalanceError::Overflow);
            },
        };
        let summed2 = match summed.checked_add(wx) {
            Some(q) => q,
            None => {
                return Err(RebalanceError::Overflow);
            },
        };
        proof {
            assert(all_wf(w)) by {
                assert(forall|k: int| 0 <= k < w.len() ==> (#[trigger] w[k]).wf());
            }
            lemma_sum_chunk(summed@, wx@, summed2@, w, i, w[i]);
            assert forall|k: int| 0 <= k < w.take(i + 1).len() implies (#[trigger] w.take(
                i + 1,
            )[k]).wf() && Rat::whole(0).lt(w.take(i + 1)[k]) by {
                assert(w[k].wf() && Rat::whole(0).lt(w[k]));
            }
            lemma_rat_sum_pos(w.take(i + 1));
            lemma_is_zero_congruence(summed2@, rat_sum(w.take(i + 1)));
            assert(!summed2@.is_zero());
        }
        let mut take_rest = false;
        if idx == n - 1 {
            take_rest = true;
        } else {
            let next = order[idx + 1].dev;
            let gap = match next.checked_sub(level_idx) {
                Some(q) => q,
                None => {
                    return Err(RebalanceError::Overflow);
                },
            };
            let delta = match summed2.checked_mul(gap) {
                Some(q) => q,
                None => {
                    return Err(RebalanceError::Overflow);
                },
            };
            if amount_left.abs().lt(&delta.abs()) {
                // not enough money to level with the next class; what is
                // left falls strictly short of the gap to it
                proof {
                    let gapv = dv[i + 1].sub(dv[i]);
                    lemma_add_wf(dv[i + 1], dv[i].neg());
                    lemma_add_wf(summed2@, gapv);
                    lemma_add_wf(summed2@, gap@);
                    lemma_mul_congruence(summed2@, gap@, summed2@, gapv);
                    lemma_eqv_trans(delta@, summed2@.mul(gap@), summed2@.mul(gapv));
                    lemma_le_congruence(
                        Rat::whole(0),
                        rat_sum(w.take(i + 1)),
                        Rat::whole(0),
                        summed2@,
                    );
                    lemma_sub_sign(dv[i + 1], dv[i]);
                    lemma_abs_order(amount_left@, delta@);
                    lemma_is_zero_congruence(gap@, gapv);
                    lemma_mul_sign(summed2@, gap@);
                    lemma_is_zero_congruence(delta@, summed2@.mul(gap@));
                    if !c.is_neg() {
                        assert(dv[i].le(dv[i + 1]));
                        assert(!delta@.is_neg());
                        assert(amount_left@.lt(delta@));
                        lemma_le_congruence(
                            amount_left@,
                            delta@,
                            amount_left@,
                            summed2@.mul(gapv),
                        );
                        assert(amount_left@.lt(summed2@.mul(dv[i + 1].sub(dv[i]))));
                    } else {
                        assert(dv[i + 1].le(dv[i]));
                        lemma_le_congruence(gap@, Rat::whole(0), gapv, Rat::whole(0));
                        assert(gap@.le(Rat::whole(0)));
                        lemma_le_congruence(
                            delta@,
                            Rat::whole(0),
                            summed2@.mul(gap@),
                            Rat::whole(0),
                        );
                        assert(delta@.le(Rat::whole(0)));
                        assert(delta@.lt(amount_left@));
                        lemma_le_congruence(
                            delta@,
                            amount_left@,
                            summed2@.mul(gapv),
                            amount_left@,
                        );
                        assert(summed2@.mul(dv[i + 1].sub(dv[i])).lt(amount_left@));
                    }
                }
                take_rest = true;
            } else {
                let rem = match amount_left.checked_sub(delta) {
                    Some(q) => q,
                    None => {
                        return Err(RebalanceError::Overflow);
                    },
                };
                proof {
                    lemma_walk_step(w, dv, c, i, amount_left@, summed2@, gap@, delta@, rem@);
                    // the money left keeps the contribution's sign
                    let gapv = dv[i + 1].sub(dv[i]);
                    lemma_add_wf(dv[i + 1], dv[i].neg());
                    lemma_add_wf(summed2@, gap@);
                    lemma_le_congruence(
                        Rat::whole(0),
                        rat_sum(w.take(i + 1)),
                        Rat::whole(0),
                        summed2@,
                    );
                    lemma_sub_sign(dv[i + 1], dv[i]);
                    lemma_abs_order(amount_left@, delta@);
                    lemma_is_zero_congruence(gap@, gapv);
                    lemma_mul_sign(summed2@, gap@);
                    lemma_is_zero_congruence(delta@, summed2@.mul(gap@));
                    lemma_sub_sign(amount_left@, delta@);
                    lemma_add_wf(amount_left@, delta@.neg());
                    lemma_is_zero_congruence(rem@, amount_left@.sub(delta@));
                    if !c.is_neg() {
                        assert(dv[i].le(dv[i + 1]));
                        assert(!delta@.is_neg());
                        assert(delta@.abs().le(amount_left@.abs()));
                        assert(delta@.le(amount_left@));
                        assert(!rem@.is_neg());
                    } else {
                        assert(dv[i + 1].le(dv[i]));
                        lemma_le_congruence(gap@, Rat::whole(0), gapv, Rat::whole(0));
                        assert(gap@.le(Rat::whole(0)));
                        lemma_le_congruence(
                            delta@,
                            Rat::whole(0),
                            summed2@.mul(gap@),
                            Rat::whole(0),
                        );
                        assert(delta@.le(Rat::whole(0)));
                        assert(delta@.abs().le(amount_left@.abs()));
                        assert(amount_left@.le(delta@));
                        lemma_le_congruence(
                            rem@,
                            Rat::whole(0),
                            amount_left@.sub(delta@),
                            Rat::whole(0),
                        );
                        assert(rem@.le(Rat::whole(0)));
                    }
                }
                if rem.is_zero() {
                    stop = idx + 1;
                    final_level = next;
                    proof {
                        let sp = spread(w.take(i + 1), dv.take(i + 1), dv[i + 1]);
                        lemma_all_wf_take(w, i + 1);
                        lemma_all_wf_take(dv, i + 1);
                        lemma_weighted_gaps_wf(w.take(i + 1), dv.take(i + 1), dv[i + 1]);
                        lemma_add_wf(c, sp.neg());
                        lemma_is_zero_congruence(rem@, c.sub(sp));
                        lemma_sub_zero_eqv(c, sp);
                        assert(next@ == dv[i + 1]);
                        // the final level is the next deviation, so every
                        // visited class lies on the near side and every
                        // later one at or beyond it
                        if c.is_neg() {
                            assert forall|j: int| 0 <= j < i + 1 implies final_level@.le(
                                #[trigger] dv[j],
                            ) by {
                                assert(dv[i + 1].le(dv[j]));
                            }
                            assert forall|j: int| i + 1 <= j < n as int implies (
                            #[trigger] dv[j]).le(final_level@) by {
                                if j > i + 1 {
                                    assert(dv[j].le(dv[i + 1]));
                                }
                            }
                        } else {
                            assert forall|j: int| 0 <= j < i + 1 implies (#[trigger] dv[j]).le(
                                final_level@,
                            ) by {
                                assert(dv[j].le(dv[i + 1]));
                            }
                            assert forall|j: int| i + 1 <= j < n as int implies final_level@.le(
                                #[trigger] dv[j],
                            ) by {
                                if j > i + 1 {
                                    assert(dv[i + 1].le(dv[j]));
                                }
                            }
                        }
                    }
                    break ;
                }
                amount_left = rem;
                idx = idx + 1;
                summed = summed2;
                proof {
                    assert(next@ == dv[i + 1]);
                }
            }
        }
        if take_rest {
            // the walk ends here: level the visited classes with whatever
            // money is left
            let q = match amount_left.checked_div(summed2) {
                Some(x) => x,
                None => {
                    return Err(RebalanceError::Overflow);
                },
            };
            let lf = match level_idx.checked_add(q) {
                Some(x) => x,
                None => {
                    return Err(RebalanceError::Overflow);
                },
            };
            proof {
                lemma_walk_partial_fill(w, dv, c, i, amount_left@, summed2@, q@, lf@);
                // the final level sits between this class's deviation and
                // the next one's, so every visited class lies on the near
                // side and every later class at or beyond it
                lemma_le_congruence(
                    Rat::whole(0),
                    rat_sum(w.take(i + 1)),
                    Rat::whole(0),
                    summed2@,
                );
                lemma_div_wf(amount_left@, summed2@);
                lemma_div_sign(amount_left@, summed2@);
                lemma_is_zero_congruence(q@, amount_left@.div(summed2@));
                lemma_add_wf(dv[i], q@);
                lemma_add_shift_sign(dv[i], q@);
                if !c.is_neg() {
                    assert(!q@.is_neg());
                    assert(dv[i].le(dv[i].add(q@)));
                    lemma_le_congruence(dv[i], dv[i].add(q@), dv[i], lf@);
                    assert forall|j: int| 0 <= j < i + 1 implies (#[trigger] dv[j]).le(lf@) by {
                        if j < i {
                            assert(dv[j].le(dv[i]));
                            lemma_le_trans(dv[j], dv[i], lf@);
                        }
                    }
                    if i + 1 < n as int {
                        let gapv = dv[i + 1].sub(dv[i]);
                        lemma_add_wf(dv[i + 1], dv[i].neg());
                        lemma_add_wf(summed2@, gapv);
                        assert(amount_left@.lt(summed2@.mul(gapv)));
                        lemma_div_lt(amount_left@, gapv, summed2@);
                        lemma_le_congruence(q@, gapv, amount_left@.div(summed2@), gapv);
                        assert(q@.lt(gapv));
                        lemma_add_le_mono(dv[i], q@, gapv);
                        lemma_add_sub_cancel(dv[i + 1], dv[i]);
                        lemma_add_wf(dv[i], gapv);
                        lemma_le_congruence(dv[i].add(q@), dv[i].add(gapv), lf@, dv[i + 1]);
                        assert(lf@.lt(dv[i + 1]));
                        assert forall|j: int| i + 1 <= j < n as int implies lf@.le(
                            #[trigger] dv[j],
                        ) by {
                            if j > i + 1 {
                                assert(dv[i + 1].le(dv[j]));
                                lemma_le_trans(lf@, dv[i + 1], dv[j]);
                            }
                        }
                    }
                } else {
                    assert(q@.is_neg());
                    assert(dv[i].add(q@).le(dv[i]));
                    lemma_le_congruence(dv[i].add(q@), dv[i], lf@, dv[i]);
                    assert forall|j: int| 0 <= j < i + 1 implies lf@.le(#[trigger] dv[j]) by {
                        if j < i {
                            assert(dv[i].le(dv[j]));
                            lemma_le_trans(lf@, dv[i], dv[j]);
                        }
                    }
                    if i + 1 < n as int {
                        let gapv = dv[i + 1].sub(dv[i]);
                        lemma_add_wf(dv[i + 1], dv[i].neg());
                        lemma_add_wf(summed2@, gapv);
                        assert(summed2@.mul(gapv).lt(amount_left@));
                        lemma_div_gt(amount_left@, gapv, summed2@);
                        lemma_le_congruence(gapv, q@, gapv, amount_left@.div(summed2@));
                        assert(gapv.lt(q@));
                        lemma_add_le_mono(dv[i], gapv, q@);
                        lemma_add_sub_cancel(dv[i + 1], dv[i]);
                        lemma_add_wf(dv[i], gapv);
                        lemma_le_congruence(dv[i].add(gapv), dv[i].add(q@), dv[i + 1], lf@);
                        assert(dv[i + 1].lt(lf@));
                        assert forall|j: int| i + 1 <= j < n as int implies (
                        #[trigger] dv[j]).le(lf@) by {
                            if j > i + 1 {
                                assert(dv[j].le(dv[i + 1]));
                                lemma_le_trans(dv[j], dv[i + 1], lf@);
                            }
                        }
                    }
                }
            }
            stop = idx + 1;
            final_level = lf;
            break ;
        }
    }
    Ok((stop, final_level))
}

/// Assign each of the first `stop` classes the exact money that brings it
/// to the final level; the classes beyond keep their zero contribution.
#[verifier::spinoff_prover]
fn assign_contributions(
    order: Vec<Ranked>,
    stop: usize,
    final_level: Rational,
    new_total: Rational,
) -> (r: Result<Vec<AssetAllocation>, RebalanceError>)
    requires
        stop as int <= order@.len(),
        forall|i: int| 0 <= i < order@.len() ==> ranked_ok(#[trigger] order@[i], new_total@),
        rational_wf(final_level),
        rational_wf(new_total),
    ensures
        r matches Ok(out) ==> out@.len() == order@.len() && (forall|k: int|
            0 <= k < out@.len() ==> (#[trigger] out@[k]).wf() && alloc_shape(out@[k])
                == alloc_shape(order@[k].alloc)) && (forall|k: int|
            0 <= k < stop as int ==> (#[trigger] out@[k]).spec_future_contribution().eqv(
                weighted_gaps(
                    weight_seq(order@, new_total@).take(stop as int),
                    dev_seq(order@).take(stop as int),
                    final_level@,
                )[k],
            )) && (forall|k: int|
            stop as int <= k < out@.len() ==> (
            #[trigger] out@[k]).spec_future_contribution().is_zero()),
        r matches Err(e) ==> e == RebalanceError::Overflow,
{
    let ghost oseq = order@;
    let ghost t = new_total@;
    let ghost lf = final_level@;
    let ghost dv = dev_seq(oseq);
    let ghost w = weight_seq(oseq, t);
    let ghost gaps = weighted_gaps(w.take(stop as int), dv.take(stop as int), lf);
    let mut rest = order;
    let mut out: Vec<AssetAllocation> = Vec::new();
    let mut j: usize = 0;
    while rest.len() > 0
        invariant
            j as int + rest@.len() == oseq.len(),
            out@.len() == j as int,
            rest@ == oseq.skip(j as int),
            stop as int <= oseq.len(),
            rational_wf(final_level),
            rational_wf(new_total),
            lf == final_level@,
            t == new_total@,
            gaps == weighted_gaps(w.take(stop as int), dv.take(stop as int), lf),
            dv == dev_seq(oseq),
            w == weight_seq(oseq, t),
            forall|k: int| 0 <= k < oseq.len() ==> ranked_ok(#[trigger] oseq[k], t),
            forall|k: int| 0 <= k < j as int ==> (#[trigger] out@[k]).wf(),
            forall|k: int|
                0 <= k < j as int ==> alloc_shape(#[trigger] out@[k]) == alloc_shape(
                    oseq[k].alloc,
                ),
            forall|k: int|
                0 <= k < j as int && k < stop as int ==> (
                #[trigger] out@[k]).spec_future_contribution().eqv(gaps[k]),
            forall|k: int|
                stop as int <= k < j as int ==> (
                #[trigger] out@[k]).spec_future_contribution().is_zero(),
        decreases rest@.len(),
    {
        let ghost k = j as int;
        let ranked_item = rest.remove(0);
        proof {
            assert(ranked_item == oseq[k]);
            assert(ranked_ok(oseq[k], t));
            assert(rest@ =~= oseq.skip(k + 1));
        }
        let Ranked { alloc, dev } = ranked_item;
        let mut a = alloc;
        if j < stop {
            let wx = match new_total.checked_mul(a.target_ratio) {
                Some(q) => q,
                None => {
                    return Err(RebalanceError::Overflow);
                },
            };
            let gapx = match final_level.checked_sub(dev) {
                Some(q) => q,
                None => {
                    return Err(RebalanceError::Overflow);
                },
            };
            let fc = match wx.checked_mul(gapx) {
                Some(q) => q,
                None => {
                    return Err(RebalanceError::Overflow);
                },
            };
            proof {
                let ratio = oseq[k].alloc.target_ratio@;
                assert(w[k] == t.mul(ratio));
                assert(dv[k] == oseq[k].dev@);
                lemma_add_wf(t, ratio);
                lemma_add_wf(lf, dv[k].neg());
                lemma_add_wf(w[k], lf.sub(dv[k]));
                lemma_add_wf(wx@, gapx@);
                lemma_mul_congruence(wx@, gapx@, w[k], lf.sub(dv[k]));
                lemma_eqv_trans(fc@, wx@.mul(gapx@), w[k].mul(lf.sub(dv[k])));
                assert(gaps[k] == w.take(stop as int)[k].mul(lf.sub(dv.take(stop as int)[k])));
                assert(gaps[k] == w[k].mul(lf.sub(dv[k])));
            }
            a.future_contribution = fc;
        }
        out.push(a);
        j = out.len();
    }
    Ok(out)
}

/// Distribute a single signed lump sum across the portfolio's classes so the
/// result deviates as little as possible from the target ratios. A positive
/// contribution is a deposit, a negative one a withdrawal. The portfolio
/// must be a fresh snapshot: no allocation carries a pending contribution.
///
/// The preconditions of the procedure are diagnosed in this order: a zero
/// contribution, ratios that do not sum to 1, an over-withdrawal, and a
/// negative balance; an empty portfolio receives the proportional fallback.
/// `Overflow` reports an exact quantity that left machine range.
#[verifier::rlimit(50)]
#[verifier::spinoff_prover]
pub fn optimally_allocate(portfolio: Portfolio, contribution: Rational) -> (r: Result<
    Portfolio,
    RebalanceError,
>)
    requires
        portfolio.wf(),
        rational_wf(contribution),
        distinct_classes(portfolio.allocations@),
        forall|i: int|
            0 <= i < portfolio.allocations@.len() ==> (#[trigger] portfolio.allocations@[i]).spec_future_contribution().is_zero(),
    ensures
        (r == Err::<Portfolio, RebalanceError>(RebalanceError::ZeroContribution))
            <==> contribution@.is_zero(),
        r == Err::<Portfolio, RebalanceError>(RebalanceError::ImbalancedTargets)
            ==> !contribution@.is_zero() && !rat_sum(target_ratios(portfolio.allocations@)).eqv(
            Rat::whole(1),
        ),
        (!contribution@.is_zero() && !rat_sum(target_ratios(portfolio.allocations@)).eqv(
            Rat::whole(1),
        )) ==> r == Err::<Portfolio, RebalanceError>(RebalanceError::ImbalancedTargets) || r
            == Err::<Portfolio, RebalanceError>(RebalanceError::Overflow),
        r == Err::<Portfolio, RebalanceError>(RebalanceError::OverWithdrawal)
            ==> !contribution@.is_zero() && rat_sum(target_ratios(portfolio.allocations@)).eqv(
            Rat::whole(1),
        ) && contribution@.is_neg() && rat_sum(current_values(portfolio.allocations@)).le(
            contribution@.abs(),
        ),
        (!contribution@.is_zero() && rat_sum(target_ratios(portfolio.allocations@)).eqv(
            Rat::whole(1),
        ) && contribution@.is_neg() && rat_sum(current_values(portfolio.allocations@)).le(
            contribution@.abs(),
        )) ==> r == Err::<Portfolio, RebalanceError>(RebalanceError::OverWithdrawal) || r
            == Err::<Portfolio, RebalanceError>(RebalanceError::Overflow),
        r == Err::<Portfolio, RebalanceError>(RebalanceError::NegativeBalance) ==> rat_sum(
            current_values(portfolio.allocations@),
        ).is_neg(),
        r == Err::<Portfolio, RebalanceError>(RebalanceError::ClassMismatch) ==> false,
        r is Ok ==> valid_rebalance_inputs(portfolio.allocations@, contribution@),
        r matches Ok(out) ==> out.wf() && shapes_preserved(
            out.allocations@,
            portfolio.allocations@,
        ) && conserves(out.allocations@, contribution@),
        r matches Ok(out) ==> (rat_sum(current_values(portfolio.allocations@)).is_zero()
            ==> proportional_result(out.allocations@, portfolio.allocations@, contribution@)),
        r matches Ok(out) ==> (!rat_sum(current_values(portfolio.allocations@)).is_zero()
            ==> prioritized_by_deviation(
            out.allocations@,
            rat_sum(current_values(portfolio.allocations@)).add(contribution@),
            !contribution@.is_neg(),
        )),
        r matches Ok(out) ==> (!rat_sum(current_values(portfolio.allocations@)).is_zero()
            ==> exists|level: Rat|
            #![auto]
            level.wf() && levelled_outcome(
                out.allocations@,
                rat_sum(current_values(portfolio.allocations@)).add(contribution@),
                level,
                !contribution@.is_neg(),
            )),
        r matches Ok(out) ==> changes_signed(out.allocations@, !contribution@.is_neg()),
        (bounded_snapshot(portfolio.allocations@, contribution@) && !contribution@.is_zero()
            && !rat_sum(target_ratios(portfolio.allocations@)).eqv(Rat::whole(1))) ==> r
            == Err::<Portfolio, RebalanceError>(RebalanceError::ImbalancedTargets),
        (bounded_snapshot(portfolio.allocations@, contribution@) && !contribution@.is_zero()
            && rat_sum(target_ratios(portfolio.allocations@)).eqv(Rat::whole(1))
            && contribution@.is_neg() && rat_sum(current_values(portfolio.allocations@)).le(
            contribution@.abs(),
        )) ==> r == Err::<Portfolio, RebalanceError>(RebalanceError::OverWithdrawal),
        (bounded_snapshot(portfolio.allocations@, contribution@) && !contribution@.is_zero()
            && rat_sum(target_ratios(portfolio.allocations@)).eqv(Rat::whole(1))
            && !contribution@.is_neg() && rat_sum(
            current_values(portfolio.allocations@),
        ).is_zero()) ==> r is Ok,
{
    let ghost s0 = portfolio.allocations@;
    let ghost c = contribution@;
    let ghost rsum = rat_sum(target_ratios(s0));
    let ghost v = rat_sum(current_values(s0));
    proof {
        assert forall|i: int| 0 <= i < target_ratios(s0).len() implies (#[trigger] target_ratios(
            s0,
        )[i]).wf() by {
            assert(s0[i].wf());
        }
        lemma_rat_sum_wf(target_ratios(s0));
        lemma_portfolio_value_wf(s0);
    }
    if contribution.is_zero() {
        return Err(RebalanceError::ZeroContribution);
    }
    let ratio_sum = match portfolio.sum_target_ratios() {
        Some(q) => q,
        None => {
            return Err(RebalanceError::Overflow);
        },
    };
    let one = Rational::from_integer(1);
    if !ratio_sum.eq_value(&one) {
        proof {
            if rsum.eqv(Rat::whole(1)) {
                lemma_eqv_trans(ratio_sum@, rsum, Rat::whole(1));
            }
        }
        return Err(RebalanceError::ImbalancedTargets);
    }
    proof {
        lemma_eqv_trans(rsum, ratio_sum@, Rat::whole(1));
    }
    let current = match portfolio.current_value() {
        Some(q) => q,
        None => {
            return Err(RebalanceError::Overflow);
        },
    };
    let overwithdraw = if contribution.is_negative() {
        let abs_c = contribution.abs();
        proof {
            lemma_le_congruence(current@, abs_c@, v, c.abs());
        }
        current.le(&abs_c)
    } else {
        false
    };
    proof {
        assert(overwithdraw == (c.is_neg() && v.le(c.abs())));
    }
    if overwithdraw {
        return Err(RebalanceError::OverWithdrawal);
    }
    if current.is_zero() {
        proof {
            lemma_is_zero_congruence(current@, v);
        }
        let r = proportionally_allocate(portfolio, contribution);
        proof {
            match &r {
                Ok(out) => {
                    lemma_pf_result(out.allocations@, s0, c);
                    lemma_pf_conserves(out.allocations@, s0, c);
                    lemma_pf_shapes(out.allocations@, s0);
                    lemma_pf_signed(out.allocations@, s0, c);
                },
                Err(_) => {},
            }
        }
        return r;
    }
    // Under `wf` the summed holdings are never negative, so this branch is
    // unreachable; it stands for the data model's stated diagnosis should a
    // negative balance ever be admitted.
    if current.is_negative() {
        return Err(RebalanceError::NegativeBalance);
    }
    proof {
        lemma_is_zero_congruence(current@, v);
    }
    // The general procedure: all deviations are measured against the
    // hypothetical post-transaction total.
    let new_total = match current.checked_add(contribution) {
        Some(q) => q,
        None => {
            return Err(RebalanceError::Overflow);
        },
    };
    let ghost t = new_total@;
    proof {
        // the current value is positive, and the new total stays positive
        assert(Rat::whole(0).lt(current@));
        if c.is_neg() {
            assert(c.neg() == c.abs());
            assert(!v.le(c.abs()));
            assert(c.abs().lt(v));
            lemma_le_congruence(c.abs(), v, c.abs(), current@);
            assert(c.neg().lt(current@));
        }
        lemma_add_pos(current@, contribution@);
        lemma_add_wf(current@, contribution@);
        lemma_is_zero_congruence(t, current@.add(contribution@));
        lemma_le_congruence(Rat::whole(0), t, Rat::whole(0), current@.add(contribution@));
        assert(Rat::whole(0).lt(t));
        assert(!t.is_zero());
        // a portfolio of positive value holds at least one allocation
        if s0.len() == 0 {
            assert(current_values(s0) =~= Seq::<Rat>::empty());
            assert(v == Rat::whole(0));
        }
        assert(s0.len() >= 1);
    }
    let ranked = match build_ranked(portfolio.allocations, &new_total) {
        Ok(q) => q,
        Err(e) => {
            return Err(e);
        },
    };
    let ghost ranked0 = ranked@;
    proof {
        assert forall|i: int| 0 <= i < ranked0.len() implies rational_wf(
            (#[trigger] ranked0[i]).dev,
        ) by {
            assert(ranked_ok(ranked0[i], t));
        }
    }
    // Most underweight classes first; for a withdrawal, most overweight first.
    let sorted = sort_ranked_by_dev(ranked);
    let ghost sorted0 = sorted@;
    proof {
        broadcast use vstd::seq_lib::group_to_multiset_ensures;

        assert forall|i: int| 0 <= i < sorted0.len() implies ranked_ok(
            #[trigger] sorted0[i],
            t,
        ) by {
            assert(sorted0.contains(sorted0[i]));
            assert(sorted0.to_multiset().count(sorted0[i]) > 0);
            assert(ranked0.to_multiset().count(sorted0[i]) > 0);
            assert(ranked0.contains(sorted0[i]));
            let j = choose|j: int| 0 <= j < ranked0.len() && ranked0[j] == sorted0[i];
            assert(ranked_ok(ranked0[j], t));
        }
    }
    let withdrawing = contribution.is_negative();
    let order = if withdrawing {
        reverse_ranked(sorted)
    } else {
        sorted
    };
    let ghost oseq = order@;
    proof {
        assert forall|i: int| 0 <= i < oseq.len() implies ranked_ok(#[trigger] oseq[i], t)
            && sorted0.contains(oseq[i]) by {
            if withdrawing {
                assert(oseq[i] == sorted0[sorted0.len() - 1 - i]);
                assert(sorted0.contains(sorted0[sorted0.len() - 1 - i]));
            } else {
                assert(oseq[i] == sorted0[i]);
                assert(sorted0.contains(sorted0[i]));
            }
        }
        // the walk sees the deviations in its priority direction
        assert forall|i2: int, j2: int| 0 <= i2 < j2 < oseq.len() implies (if c.is_neg() {
            (#[trigger] dev_seq(oseq)[j2]).le(#[trigger] dev_seq(oseq)[i2])
        } else {
            dev_seq(oseq)[i2].le(dev_seq(oseq)[j2])
        }) by {
            if withdrawing {
                assert(oseq[i2] == sorted0[sorted0.len() - 1 - i2]);
                assert(oseq[j2] == sorted0[sorted0.len() - 1 - j2]);
                assert(sorted0[sorted0.len() - 1 - j2].dev@.le(
                    sorted0[sorted0.len() - 1 - i2].dev@,
                ));
            } else {
                assert(oseq[i2] == sorted0[i2]);
                assert(oseq[j2] == sorted0[j2]);
            }
        }
        assert(devs_ordered(dev_seq(oseq), c.is_neg()));
    }
    let walk = match walk_levels(&order, &new_total, &contribution) {
        Ok(q) => q,
        Err(e) => {
            return Err(e);
        },
    };
    let stop = walk.0;
    let final_level = walk.1;
    let out = match assign_contributions(order, stop, final_level, new_total) {
        Ok(q) => q,
        Err(e) => {
            return Err(e);
        },
    };
    let result = Portfolio { allocations: out };
    proof {
        let outs = result.allocations@;
        lemma_assigned_conserves(outs, oseq, t, final_level@, stop as int, c);
        assert(result.wf()) by {
            assert(forall|k: int| 0 <= k < outs.len() ==> (#[trigger] outs[k]).wf());
        }
        // the classes, ratios and holdings are exactly those of the input
        lemma_shapes_from_permutation(outs, oseq, sorted0, ranked0, s0, withdrawing);
        assert(shapes_preserved(outs, s0));
        // priority order: the classes stand sorted by their starting
        // deviation, ascending for a deposit and descending for a withdrawal
        let tv = v.add(c);
        lemma_add_wf(v, c);
        lemma_add_congruence(current@, contribution@, v, c);
        lemma_eqv_trans(t, current@.add(contribution@), tv);
        assert forall|i2: int| 0 <= i2 < oseq.len() implies #[trigger] oseq[i2] == (if withdrawing {
            sorted0[sorted0.len() - 1 - i2]
        } else {
            sorted0[i2]
        }) by {}
        lemma_priority_order(outs, oseq, sorted0, t, tv, withdrawing);
        assert(prioritized_by_deviation(outs, tv, !c.is_neg()));
        // the water level the walk found governs every class's contribution
        lemma_levelled(outs, oseq, t, tv, final_level@, stop as int, withdrawing);
        assert(rational_wf(final_level));
        assert(final_level@.wf());
        assert(levelled_outcome(outs, tv, final_level@, !c.is_neg()));
        assert(exists|level: Rat| #![auto] level.wf() && levelled_outcome(
            outs,
            tv,
            level,
            !c.is_neg(),
        ));
        assert(changes_signed(outs, !c.is_neg()));
    }
    Ok(result)
}

/// The engine's outcome is exactly the water level the walk found: a class
/// that starts on the near side of the level receives its target value
/// times the distance to the level; a class at or beyond it is untouched;
/// and every change carries the lump sum's sign.
#[verifier::spinoff_prover]
proof fn lemma_levelled(
    outs: Seq<AssetAllocation>,
    oseq: Seq<Ranked>,
    t: Rat,
    tv: Rat,
    lf: Rat,
    stop: int,
    withdrawing: bool,
)
    requires
        outs.len() == oseq.len(),
        0 <= stop <= oseq.len(),
        t.wf(),
        tv.wf(),
        lf.wf(),
        t.eqv(tv),
        !t.is_zero(),
        Rat::whole(0).lt(t),
        forall|i: int| 0 <= i < oseq.len() ==> ranked_ok(#[trigger] oseq[i], t),
        forall|k: int|
            0 <= k < outs.len() ==> (#[trigger] outs[k]).wf() && alloc_shape(outs[k])
                == alloc_shape(oseq[k].alloc),
        forall|k: int|
            0 <= k < stop ==> (#[trigger] outs[k]).spec_future_contribution().eqv(
                weighted_gaps(weight_seq(oseq, t).take(stop), dev_seq(oseq).take(stop), lf)[k],
            ),
        forall|k: int|
            stop <= k < outs.len() ==> (#[trigger] outs[k]).spec_future_contribution().is_zero(),
        forall|j: int|
            0 <= j < stop ==> (withdrawing ==> lf.le(#[trigger] dev_seq(oseq)[j])) && (
            !withdrawing ==> dev_seq(oseq)[j].le(lf)),
        forall|j: int|
            stop <= j < oseq.len() ==> (withdrawing ==> (#[trigger] dev_seq(oseq)[j]).le(lf)) && (
            !withdrawing ==> lf.le(dev_seq(oseq)[j])),
    ensures
        levelled_outcome(outs, tv, lf, !withdrawing),
        changes_signed(outs, !withdrawing),
{
    let dv = dev_seq(oseq);
    let w = weight_seq(oseq, t);
    assert forall|j: int| #![trigger outs[j]] 0 <= j < outs.len() implies ({
        let dev = base_deviation(outs[j], tv);
        let share = tv.mul(outs[j].target_ratio@).mul(lf.sub(dev));
        &&& (if !withdrawing {
            (dev.lt(lf) ==> outs[j].spec_future_contribution().eqv(share)) && (lf.le(dev)
                ==> outs[j].spec_future_contribution().is_zero())
        } else {
            (lf.lt(dev) ==> outs[j].spec_future_contribution().eqv(share)) && (dev.le(lf)
                ==> outs[j].spec_future_contribution().is_zero())
        })
        &&& (if !withdrawing {
            !outs[j].spec_future_contribution().is_neg()
        } else {
            outs[j].spec_future_contribution().le(Rat::whole(0))
        })
    }) by {
        let a = oseq[j].alloc;
        let ratio = a.target_ratio@;
        assert(ranked_ok(oseq[j], t));
        lemma_base_deviation_eqv(a, t, tv);
        lemma_deviation_wf(a, t);
        assert(outs[j].underlying_assets@ == a.underlying_assets@);
        assert(outs[j].target_ratio == a.target_ratio);
        let dev = base_deviation(outs[j], tv);
        assert(dev == base_deviation(a, tv));
        // the stored deviation denotes the base deviation against tv
        lemma_eqv_trans(dv[j], a.spec_deviation(t), dev);
        let fc = outs[j].spec_future_contribution();
        lemma_add_wf(t, ratio);
        lemma_add_wf(tv, ratio);
        lemma_mul_pos(t, ratio);
        lemma_add_wf(lf, dv[j].neg());
        lemma_add_wf(lf, dev.neg());
        lemma_add_wf(w[j], lf.sub(dv[j]));
        lemma_add_wf(tv.mul(ratio), lf.sub(dev));
        let share = tv.mul(ratio).mul(lf.sub(dev));
        if j < stop {
            // this class was brought exactly to the level
            assert(fc.eqv(
                weighted_gaps(w.take(stop), dv.take(stop), lf)[j],
            ));
            assert(weighted_gaps(w.take(stop), dv.take(stop), lf)[j] == w[j].mul(lf.sub(dv[j])));
            assert(w[j] == t.mul(ratio));
            lemma_mul_congruence(t, ratio, tv, ratio);
            lemma_sub_congruence(lf, dv[j], lf, dev);
            lemma_mul_congruence(w[j], lf.sub(dv[j]), tv.mul(ratio), lf.sub(dev));
            lemma_eqv_trans(fc, w[j].mul(lf.sub(dv[j])), share);
            // sign, and the boundary case where the class already sat at
            // the level
            lemma_le_congruence(Rat::whole(0), t, Rat::whole(0), tv);
            lemma_mul_pos(tv, ratio);
            if !withdrawing {
                assert(dv[j].le(lf));
                lemma_le_congruence(dv[j], lf, dev, lf);
                lemma_sub_sign(lf, dev);
                lemma_mul_sign(tv.mul(ratio), lf.sub(dev));
                lemma_is_zero_congruence(fc, share);
                if lf.le(dev) {
                    assert(dev.eqv(lf));
                    lemma_sub_zero_eqv(lf, dev);
                    crate::rational::lemma_mul_zero_valued(tv.mul(ratio), lf.sub(dev));
                    assert(share.is_zero());
                }
            } else {
                assert(lf.le(dv[j]));
                lemma_le_congruence(lf, dv[j], lf, dev);
                lemma_sub_sign(lf, dev);
                lemma_mul_sign(tv.mul(ratio), lf.sub(dev));
                lemma_is_zero_congruence(fc, share);
                lemma_le_congruence(fc, Rat::whole(0), share, Rat::whole(0));
                if dev.le(lf) {
                    assert(dev.eqv(lf));
                    lemma_sub_zero_eqv(lf, dev);
                    crate::rational::lemma_mul_zero_valued(tv.mul(ratio), lf.sub(dev));
                    assert(share.is_zero());
                }
            }
        } else {
            // this class was left untouched
            assert(fc.is_zero());
            if !withdrawing {
                assert(lf.le(dv[j]));
                lemma_le_congruence(lf, dv[j], lf, dev);
                assert(lf.le(dev));
            } else {
                assert(dv[j].le(lf));
                lemma_le_congruence(dv[j], lf, dev, lf);
                assert(dev.le(lf));
            }
        }
    }
    assert(levelled_outcome(outs, tv, lf, !withdrawing));
    assert(changes_signed(outs, !withdrawing));
}

/// The output's classes, ratios and holdings are exactly the input's, in
/// some order, traced through ranking, sorting and the optional reversal.
#[verifier::spinoff_prover]
proof fn lemma_shapes_from_permutation(
    outs: Seq<AssetAllocation>,
    oseq: Seq<Ranked>,
    sorted0: Seq<Ranked>,
    ranked0: Seq<Ranked>,
    s0: Seq<AssetAllocation>,
    withdrawing: bool,
)
    requires
        outs.len() == oseq.len(),
        sorted0.len() == oseq.len(),
        ranked0.len() == oseq.len(),
        s0.len() == oseq.len(),
        forall|k: int|
            0 <= k < outs.len() ==> alloc_shape(#[trigger] outs[k]) == alloc_shape(
                oseq[k].alloc,
            ),
        forall|i: int|
            0 <= i < oseq.len() ==> #[trigger] oseq[i] == (if withdrawing {
                sorted0[sorted0.len() - 1 - i]
            } else {
                sorted0[i]
            }),
        sorted0.to_multiset() == ranked0.to_multiset(),
        forall|j: int| 0 <= j < ranked0.len() ==> (#[trigger] ranked0[j]).alloc == s0[j],
    ensures
        shapes_preserved(outs, s0),
{
    broadcast use vstd::seq_lib::group_to_multiset_ensures;

    assert forall|i2: int| 0 <= i2 < outs.len() implies shape_in(#[trigger] outs[i2], s0) by {
        let x = oseq[i2];
        assert(sorted0.contains(x));
        assert(sorted0.to_multiset().count(x) > 0);
        assert(ranked0.to_multiset().count(x) > 0);
        assert(ranked0.contains(x));
        let j2 = choose|j2: int| 0 <= j2 < ranked0.len() && ranked0[j2] == x;
        assert(alloc_shape(outs[i2]) == alloc_shape(s0[j2]));
    }
    assert forall|j2: int| 0 <= j2 < s0.len() implies shape_in(#[trigger] s0[j2], outs) by {
        let x = ranked0[j2];
        assert(ranked0.contains(x));
        assert(ranked0.to_multiset().count(x) > 0);
        assert(sorted0.to_multiset().count(x) > 0);
        assert(sorted0.contains(x));
        let k2 = choose|k2: int| 0 <= k2 < sorted0.len() && sorted0[k2] == x;
        let i2 = if withdrawing {
            sorted0.len() - 1 - k2
        } else {
            k2
        };
        assert(oseq[i2] == x);
        assert(alloc_shape(outs[i2]) == alloc_shape(s0[j2]));
    }
}

/// The output stands in the engine's priority order: sorted by starting
/// deviation, ascending for a deposit, descending for a withdrawal.
#[verifier::spinoff_prover]
proof fn lemma_priority_order(
    outs: Seq<AssetAllocation>,
    oseq: Seq<Ranked>,
    sorted0: Seq<Ranked>,
    t: Rat,
    tv: Rat,
    withdrawing: bool,
)
    requires
        outs.len() == oseq.len(),
        sorted0.len() == oseq.len(),
        t.wf(),
        tv.wf(),
        t.eqv(tv),
        !t.is_zero(),
        forall|i: int| 0 <= i < oseq.len() ==> ranked_ok(#[trigger] oseq[i], t),
        forall|k: int|
            0 <= k < outs.len() ==> alloc_shape(#[trigger] outs[k]) == alloc_shape(
                oseq[k].alloc,
            ),
        sorted_asc_by_dev(sorted0),
        forall|i: int|
            0 <= i < oseq.len() ==> #[trigger] oseq[i] == (if withdrawing {
                sorted0[sorted0.len() - 1 - i]
            } else {
                sorted0[i]
            }),
    ensures
        prioritized_by_deviation(outs, tv, !withdrawing),
{
    assert forall|i2: int, j2: int|
        #![trigger base_deviation(outs[i2], tv), base_deviation(outs[j2], tv)]
        0 <= i2 < j2 < outs.len() implies (if withdrawing {
        base_deviation(outs[j2], tv).le(base_deviation(outs[i2], tv))
    } else {
        base_deviation(outs[i2], tv).le(base_deviation(outs[j2], tv))
    }) by {
        assert(ranked_ok(oseq[i2], t));
        assert(ranked_ok(oseq[j2], t));
        lemma_base_deviation_eqv(oseq[i2].alloc, t, tv);
        lemma_base_deviation_eqv(oseq[j2].alloc, t, tv);
        assert(outs[i2].underlying_assets@ == oseq[i2].alloc.underlying_assets@);
        assert(outs[i2].target_ratio == oseq[i2].alloc.target_ratio);
        assert(outs[j2].underlying_assets@ == oseq[j2].alloc.underlying_assets@);
        assert(outs[j2].target_ratio == oseq[j2].alloc.target_ratio);
        assert(base_deviation(outs[i2], tv) == base_deviation(oseq[i2].alloc, tv));
        assert(base_deviation(outs[j2], tv) == base_deviation(oseq[j2].alloc, tv));
        let di = oseq[i2].dev@;
        let dj = oseq[j2].dev@;
        lemma_deviation_wf(oseq[i2].alloc, t);
        lemma_deviation_wf(oseq[j2].alloc, t);
        lemma_eqv_trans(di, oseq[i2].alloc.spec_deviation(t), base_deviation(oseq[i2].alloc, tv));
        lemma_eqv_trans(dj, oseq[j2].alloc.spec_deviation(t), base_deviation(oseq[j2].alloc, tv));
        if withdrawing {
            assert(oseq[i2] == sorted0[sorted0.len() - 1 - i2]);
            assert(oseq[j2] == sorted0[sorted0.len() - 1 - j2]);
            assert(dj.le(di));
            lemma_le_congruence(
                dj,
                di,
                base_deviation(oseq[j2].alloc, tv),
                base_deviation(oseq[i2].alloc, tv),
            );
        } else {
            assert(oseq[i2] == sorted0[i2]);
            assert(oseq[j2] == sorted0[j2]);
            assert(di.le(dj));
            lemma_le_congruence(
                di,
                dj,
                base_deviation(oseq[i2].alloc, tv),
                base_deviation(oseq[j2].alloc, tv),
            );
        }
    }
}

/// A contribution added to a zero balance is just the contribution.
proof fn lemma_share_of(out_fc: Rat, base_fc: Rat, share: Rat)
    requires
        out_fc.wf(),
        base_fc.wf(),
        share.wf(),
        base_fc.is_zero(),
        out_fc.eqv(base_fc.add(share)),
    ensures
        out_fc.eqv(share),
{
    lemma_add_zero_valued(share, base_fc);
    lemma_add_wf(base_fc, share);
    lemma_eqv_trans(out_fc, base_fc.add(share), share);
}

/// Shares of a ratio table summing to 1 add up to the whole lump sum.
proof fn lemma_shares_sum(fcs: Seq<Rat>, ratios: Seq<Rat>, c: Rat)
    requires
        all_wf(fcs),
        all_wf(ratios),
        fcs.len() == ratios.len(),
        c.wf(),
        forall|i: int| 0 <= i < fcs.len() ==> (#[trigger] fcs[i]).eqv(ratios[i].mul(c)),
        rat_sum(ratios).eqv(Rat::whole(1)),
    ensures
        rat_sum(fcs).eqv(c),
{
    let scaled = ratios.map_values(|x: Rat| x.mul(c));
    assert forall|i: int| 0 <= i < scaled.len() implies (#[trigger] scaled[i]).wf() by {
        assert(ratios[i].wf());
        lemma_add_wf(ratios[i], c);
    }
    assert forall|i: int| 0 <= i < fcs.len() implies (#[trigger] fcs[i]).wf() && fcs[i].eqv(
        scaled[i],
    ) by {
        assert(fcs[i].eqv(ratios[i].mul(c)));
    }
    lemma_rat_sum_congruence(fcs, scaled);
    lemma_rat_sum_mul(ratios, c);
    lemma_rat_sum_wf(fcs);
    lemma_rat_sum_wf(scaled);
    lemma_rat_sum_wf(ratios);
    lemma_add_wf(rat_sum(ratios), c);
    lemma_mul_congruence(rat_sum(ratios), c, Rat::whole(1), c);
    crate::rational::lemma_mul_one(c);
    lemma_add_wf(Rat::whole(1), c);
    lemma_eqv_trans(rat_sum(fcs), rat_sum(scaled), rat_sum(ratios).mul(c));
    lemma_eqv_trans(rat_sum(fcs), rat_sum(ratios).mul(c), Rat::whole(1).mul(c));
    lemma_eqv_trans(rat_sum(fcs), Rat::whole(1).mul(c), c);
}

/// In the proportional fallback over a freshly built portfolio, each class
/// receives exactly its target share.
proof fn lemma_pf_result(outs: Seq<AssetAllocation>, s0: Seq<AssetAllocation>, c: Rat)
    requires
        allocs_wf(s0),
        c.wf(),
        outs.len() == s0.len(),
        forall|i: int| 0 <= i < s0.len() ==> (#[trigger] s0[i]).spec_future_contribution().is_zero(),
        forall|i: int| 0 <= i < outs.len() ==> (#[trigger] outs[i]).wf(),
        forall|i: int|
            0 <= i < outs.len() ==> alloc_shape(#[trigger] outs[i]) == alloc_shape(s0[i]),
        forall|i: int|
            0 <= i < outs.len() ==> (#[trigger] outs[i]).spec_future_contribution().eqv(
                s0[i].spec_future_contribution().add(s0[i].target_ratio@.mul(c)),
            ),
    ensures
        proportional_result(outs, s0, c),
{
    assert forall|i: int| 0 <= i < outs.len() implies (
    #[trigger] outs[i]).spec_future_contribution().eqv(s0[i].target_ratio@.mul(c)) by {
        assert(s0[i].wf());
        lemma_add_wf(s0[i].target_ratio@, c);
        lemma_share_of(
            outs[i].spec_future_contribution(),
            s0[i].spec_future_contribution(),
            s0[i].target_ratio@.mul(c),
        );
    }
}

/// Proportional shares conserve money when the ratios sum to 1.
proof fn lemma_pf_conserves(outs: Seq<AssetAllocation>, s0: Seq<AssetAllocation>, c: Rat)
    requires
        allocs_wf(s0),
        c.wf(),
        forall|i: int| 0 <= i < outs.len() ==> (#[trigger] outs[i]).wf(),
        rat_sum(target_ratios(s0)).eqv(Rat::whole(1)),
        proportional_result(outs, s0, c),
    ensures
        conserves(outs, c),
{
    let ratios = target_ratios(s0);
    let fcs = future_contributions(outs);
    assert forall|i: int| 0 <= i < ratios.len() implies (#[trigger] ratios[i]).wf() by {
        assert(s0[i].wf());
    }
    assert forall|i: int| 0 <= i < fcs.len() implies (#[trigger] fcs[i]).wf() && fcs[i].eqv(
        ratios[i].mul(c),
    ) by {
        assert(outs[i].wf());
        assert(outs[i].spec_future_contribution().eqv(s0[i].target_ratio@.mul(c)));
    }
    lemma_shares_sum(fcs, ratios, c);
}

/// An output in the same order with the same shapes preserves them.
proof fn lemma_pf_shapes(outs: Seq<AssetAllocation>, s0: Seq<AssetAllocation>)
    requires
        outs.len() == s0.len(),
        forall|i: int|
            0 <= i < outs.len() ==> alloc_shape(#[trigger] outs[i]) == alloc_shape(s0[i]),
    ensures
        shapes_preserved(outs, s0),
{
    assert forall|i: int| 0 <= i < outs.len() implies shape_in(#[trigger] outs[i], s0) by {
        assert(alloc_shape(outs[i]) == alloc_shape(s0[i]));
    }
    assert forall|j2: int| 0 <= j2 < s0.len() implies shape_in(#[trigger] s0[j2], outs) by {
        assert(alloc_shape(outs[j2]) == alloc_shape(s0[j2]));
    }
}

/// One non-final step of the walk keeps the accounting identity: after
/// levelling the visited classes with the next class, the money left is the
/// lump sum less the exact cost of the new level.
#[verifier::spinoff_prover]
proof fn lemma_walk_step(
    w: Seq<Rat>,
    dv: Seq<Rat>,
    c: Rat,
    i: int,
    amount: Rat,
    summed2: Rat,
    gap: Rat,
    delta: Rat,
    rem: Rat,
)
    requires
        w.len() == dv.len(),
        0 <= i < w.len() - 1,
        all_wf(w),
        all_wf(dv),
        c.wf(),
        amount.wf(),
        summed2.wf(),
        gap.wf(),
        delta.wf(),
        rem.wf(),
        amount.eqv(c.sub(spread(w.take(i), dv.take(i), dv[i]))),
        summed2.eqv(rat_sum(w.take(i + 1))),
        gap.eqv(dv[i + 1].sub(dv[i])),
        delta.eqv(summed2.mul(gap)),
        rem.eqv(amount.sub(delta)),
    ensures
        rem.eqv(c.sub(spread(w.take(i + 1), dv.take(i + 1), dv[i + 1]))),
{
    let s_prev = spread(w.take(i), dv.take(i), dv[i]);
    let s_same = spread(w.take(i + 1), dv.take(i + 1), dv[i]);
    let s_next = spread(w.take(i + 1), dv.take(i + 1), dv[i + 1]);
    let sw = rat_sum(w.take(i + 1));
    lemma_all_wf_take(w, i);
    lemma_all_wf_take(dv, i);
    lemma_all_wf_take(w, i + 1);
    lemma_all_wf_take(dv, i + 1);
    assert(dv[i].wf());
    assert(dv[i + 1].wf());
    lemma_weighted_gaps_wf(w.take(i), dv.take(i), dv[i]);
    lemma_weighted_gaps_wf(w.take(i + 1), dv.take(i + 1), dv[i]);
    lemma_weighted_gaps_wf(w.take(i + 1), dv.take(i + 1), dv[i + 1]);
    lemma_rat_sum_wf(w.take(i + 1));
    // the new level costs the old level plus the summed weights times the gap
    lemma_spread_shift(w.take(i + 1), dv.take(i + 1), dv[i], dv[i + 1]);
    lemma_spread_extend_same_level(w, dv, i);
    // rewrite everything against c and the exact machine quantities
    lemma_sub_swap(c, s_prev, amount);
    lemma_add_wf(dv[i + 1], dv[i].neg());
    lemma_add_wf(sw, dv[i + 1].sub(dv[i]));
    lemma_add_wf(summed2, gap);
    lemma_mul_congruence(summed2, gap, sw, dv[i + 1].sub(dv[i]));
    lemma_eqv_trans(delta, summed2.mul(gap), sw.mul(dv[i + 1].sub(dv[i])));
    // s_next ~ s_same + sw * (dv[i+1] - dv[i]) ~ (c - amount) + delta
    lemma_add_wf(c, amount.neg());
    lemma_add_wf(s_same, sw.mul(dv[i + 1].sub(dv[i])));
    lemma_eqv_trans(s_same, s_prev, c.sub(amount));
    lemma_add_congruence(
        s_same,
        sw.mul(dv[i + 1].sub(dv[i])),
        c.sub(amount),
        delta,
    );
    lemma_add_wf(c.sub(amount), delta);
    lemma_eqv_trans(s_next, s_same.add(sw.mul(dv[i + 1].sub(dv[i]))), c.sub(amount).add(delta));
    // so c - s_next ~ amount - delta ~ rem
    lemma_sub_congruence(c, s_next, c, c.sub(amount).add(delta));
    lemma_cancel3(c, amount, delta);
    lemma_add_wf(c, s_next.neg());
    lemma_add_wf(c, c.sub(amount).add(delta).neg());
    lemma_add_wf(amount, delta.neg());
    lemma_eqv_trans(c.sub(s_next), c.sub(c.sub(amount).add(delta)), amount.sub(delta));
    lemma_eqv_trans(rem, amount.sub(delta), c.sub(s_next));
}

/// The closing step of the walk: handing the last visited class all the
/// money that is left raises the visited classes to a level whose exact cost
/// is the whole lump sum.
#[verifier::spinoff_prover]
proof fn lemma_walk_partial_fill(
    w: Seq<Rat>,
    dv: Seq<Rat>,
    c: Rat,
    i: int,
    amount: Rat,
    summed2: Rat,
    q: Rat,
    lf: Rat,
)
    requires
        w.len() == dv.len(),
        0 <= i < w.len(),
        all_wf(w),
        all_wf(dv),
        c.wf(),
        amount.wf(),
        summed2.wf(),
        q.wf(),
        lf.wf(),
        !summed2.is_zero(),
        amount.eqv(c.sub(spread(w.take(i), dv.take(i), dv[i]))),
        summed2.eqv(rat_sum(w.take(i + 1))),
        q.eqv(amount.div(summed2)),
        lf.eqv(dv[i].add(q)),
    ensures
        spread(w.take(i + 1), dv.take(i + 1), lf).eqv(c),
{
    let s_prev = spread(w.take(i), dv.take(i), dv[i]);
    let s_same = spread(w.take(i + 1), dv.take(i + 1), dv[i]);
    let s_lf = spread(w.take(i + 1), dv.take(i + 1), lf);
    let sw = rat_sum(w.take(i + 1));
    lemma_all_wf_take(w, i);
    lemma_all_wf_take(dv, i);
    lemma_all_wf_take(w, i + 1);
    lemma_all_wf_take(dv, i + 1);
    assert(dv[i].wf());
    lemma_weighted_gaps_wf(w.take(i), dv.take(i), dv[i]);
    lemma_weighted_gaps_wf(w.take(i + 1), dv.take(i + 1), dv[i]);
    lemma_weighted_gaps_wf(w.take(i + 1), dv.take(i + 1), lf);
    lemma_rat_sum_wf(w.take(i + 1));
    lemma_is_zero_congruence(summed2, sw);
    // shifting from the class's own level to the final level
    lemma_spread_shift(w.take(i + 1), dv.take(i + 1), dv[i], lf);
    lemma_spread_extend_same_level(w, dv, i);
    lemma_sub_swap(c, s_prev, amount);
    // lf - dv[i] ~ q ~ amount / sw
    lemma_add_wf(dv[i], q);
    lemma_sub_congruence(lf, dv[i], dv[i].add(q), dv[i]);
    lemma_add_cancel_left(dv[i], q);
    lemma_add_wf(lf, dv[i].neg());
    lemma_add_wf(dv[i].add(q), dv[i].neg());
    lemma_eqv_trans(lf.sub(dv[i]), dv[i].add(q).sub(dv[i]), q);
    lemma_div_congruence(amount, summed2, amount, sw);
    crate::rational::lemma_div_wf(amount, summed2);
    crate::rational::lemma_div_wf(amount, sw);
    lemma_eqv_trans(lf.sub(dv[i]), q, amount.div(summed2));
    lemma_eqv_trans(lf.sub(dv[i]), amount.div(summed2), amount.div(sw));
    // sw * (lf - dv[i]) ~ sw * (amount / sw) ~ amount
    lemma_mul_congruence(sw, lf.sub(dv[i]), sw, amount.div(sw));
    lemma_mul_comm(sw, amount.div(sw));
    lemma_div_mul_cancel(amount, sw);
    lemma_add_wf(sw, lf.sub(dv[i]));
    lemma_add_wf(sw, amount.div(sw));
    lemma_add_wf(amount.div(sw), sw);
    lemma_eqv_trans(sw.mul(lf.sub(dv[i])), sw.mul(amount.div(sw)), amount.div(sw).mul(sw));
    lemma_eqv_trans(sw.mul(lf.sub(dv[i])), amount.div(sw).mul(sw), amount);
    // s_lf ~ s_same + sw * (lf - dv[i]) ~ (c - amount) + amount ~ c
    lemma_add_wf(c, amount.neg());
    lemma_add_wf(s_same, sw.mul(lf.sub(dv[i])));
    lemma_eqv_trans(s_same, s_prev, c.sub(amount));
    lemma_add_congruence(s_same, sw.mul(lf.sub(dv[i])), c.sub(amount), amount);
    lemma_add_wf(c.sub(amount), amount);
    lemma_eqv_trans(s_lf, s_same.add(sw.mul(lf.sub(dv[i]))), c.sub(amount).add(amount));
    crate::rational::lemma_sub_add_cancel(c, amount);
    lemma_eqv_trans(s_lf, c.sub(amount).add(amount), c);
}

/// One step of a running exact sum: folding in a machine value equivalent to
/// the sequence element extends the prefix-sum equivalence by one element.
proof fn lemma_sum_chunk(acc: Rat, x: Rat, next: Rat, vals: Seq<Rat>, k: int, elem: Rat)
    requires
        0 <= k < vals.len(),
        acc.wf(),
        x.wf(),
        next.wf(),
        elem.wf(),
        vals[k].wf(),
        acc.eqv(rat_sum(vals.take(k))),
        x.eqv(elem),
        elem == vals[k],
        next.eqv(acc.add(x)),
        forall|i: int| 0 <= i < vals.len() ==> (#[trigger] vals[i]).wf(),
    ensures
        next.eqv(rat_sum(vals.take(k + 1))),
{
    let prefix = rat_sum(vals.take(k));
    assert forall|i: int| 0 <= i < vals.take(k).len() implies (#[trigger] vals.take(k)[i]).wf() by {
        assert(vals[i].wf());
    }
    lemma_rat_sum_wf(vals.take(k));
    lemma_add_wf(acc, x);
    lemma_add_wf(prefix, vals[k]);
    lemma_add_congruence(acc, x, prefix, vals[k]);
    lemma_rat_sum_take_step(vals, k);
    lemma_eqv_trans(next, acc.add(x), prefix.add(vals[k]));
}

} // verus!
