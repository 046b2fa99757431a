use crate::rational::{rational_wf, Rational};
use vstd::prelude::*;
use vstd::string::StringSliceAdditionalSpecFns;

verus! {

/// Exact string equality, decided byte by byte; UTF-8 encoding is injective,
/// so equal bytes mean equal text.
pub fn str_eq(a: &str, b: &str) -> (r: bool)
    ensures
        r == (a@ == b@),
{
    let ab = a.as_bytes();
    let bb = b.as_bytes();
    proof {
        vstd::utf8::encode_utf8_decode_utf8(a@);
        vstd::utf8::encode_utf8_decode_utf8(b@);
    }
    if ab.len() != bb.len() {
        return false;
    }
    let mut i: usize = 0;
    while i < ab.len()
        invariant
            ab@ == a.spec_bytes(),
            bb@ == b.spec_bytes(),
            ab@.len() == bb@.len(),
            i <= ab@.len(),
            forall|k: int| 0 <= k < i as int ==> ab@[k] == bb@[k],
        decreases ab@.len() - i,
    {
        if ab[i] != bb[i] {
            return false;
        }
        i = i + 1;
    }
    proof {
        assert(ab@ =~= bb@);
        vstd::utf8::encode_utf8_decode_utf8(a@);
        vstd::utf8::encode_utf8_decode_utf8(b@);
    }
    true
}

/// Strict lexicographic order on UTF-8 bytes: the standard string order.
pub open spec fn bytes_lt(x: Seq<u8>, y: Seq<u8>) -> bool
    decreases x.len(),
{
    if y.len() == 0 {
        false
    } else if x.len() == 0 {
        true
    } else if x[0] != y[0] {
        x[0] < y[0]
    } else {
        bytes_lt(x.drop_first(), y.drop_first())
    }
}

/// Two byte strings are ordered one way, the other way, or equal.
pub proof fn lemma_bytes_trichotomy(x: Seq<u8>, y: Seq<u8>)
    ensures
        bytes_lt(x, y) || bytes_lt(y, x) || x == y,
    decreases x.len(),
{
    if y.len() == 0 || x.len() == 0 {
        if x.len() == y.len() {
            assert(x =~= y);
        }
    } else if x[0] != y[0] {
    } else {
        lemma_bytes_trichotomy(x.drop_first(), y.drop_first());
        if x.drop_first() == y.drop_first() {
            assert(x.drop_first().len() == x.len() - 1);
            assert(y.drop_first().len() == y.len() - 1);
            assert forall|i: int| 0 <= i < x.len() implies x[i] == y[i] by {
                if i > 0 {
                    assert(x.drop_first()[i - 1] == x[i]);
                    assert(y.drop_first()[i - 1] == y[i]);
                }
            }
            assert(x =~= y);
        }
    }
}

/// Strict byte order is transitive.
pub proof fn lemma_bytes_lt_trans(x: Seq<u8>, y: Seq<u8>, z: Seq<u8>)
    requires
        bytes_lt(x, y),
        bytes_lt(y, z),
    ensures
        bytes_lt(x, z),
    decreases x.len(),
{
    if z.len() == 0 {
    } else if x.len() == 0 {
    } else {
        // y is nonempty, else bytes_lt(y, z) with empty y makes z's head moot
        assert(y.len() != 0);
        if x[0] == y[0] && y[0] == z[0] {
            lemma_bytes_lt_trans(x.drop_first(), y.drop_first(), z.drop_first());
        }
    }
}

/// A categorical bucket for investments. Identity only; grouping key for
/// allocations.
#[derive(Clone, Copy, Debug, PartialEq, Eq, Structural, Hash)]
pub enum AssetClass {
    USBonds,
    USStocks,
    USTotal,
    USSmall,
    IntlBonds,
    IntlStocks,
    REIT,
    Target,
    Cash,
}

pub open spec fn opt_rational_wf(o: Option<Rational>) -> bool {
    match o {
        Some(r) => rational_wf(r),
        None => true,
    }
}

/// One priced position contributing value to an asset class. Immutable once
/// constructed. The value is an exact nonnegative quantity; quantity, last
/// price and the time the price was obtained (seconds since the epoch) are
/// kept only for display.
#[derive(Clone, Debug)]
pub struct Asset {
    pub name: String,
    pub symbol: Option<String>,
    pub value: Rational,
    pub asset_class: AssetClass,
    pub quantity: Option<Rational>,
    pub last_price: Option<Rational>,
    pub priced_at: Option<i64>,
}

impl Asset {
    pub open spec fn wf(self) -> bool {
        &&& rational_wf(self.value)
        &&& !self.value@.is_neg()
        &&& opt_rational_wf(self.quantity)
        &&& opt_rational_wf(self.last_price)
    }

    pub fn new(
        name: String,
        symbol: Option<String>,
        value: Rational,
        asset_class: AssetClass,
        quantity: Option<Rational>,
        last_price: Option<Rational>,
        priced_at: Option<i64>,
    ) -> (a: Asset)
        requires
            rational_wf(value),
            !value@.is_neg(),
            opt_rational_wf(quantity),
            opt_rational_wf(last_price),
        ensures
            a.wf(),
            a.name == name,
            a.symbol == symbol,
            a.value == value,
            a.asset_class == asset_class,
            a.quantity == quantity,
            a.last_price == last_price,
            a.priced_at == priced_at,
    {
        Asset { name, symbol, value, asset_class, quantity, last_price, priced_at }
    }

    pub fn quantity(&self) -> (q: &Option<Rational>)
        ensures
            q == &self.quantity,
    {
        &self.quantity
    }

    pub fn last_price(&self) -> (p: &Option<Rational>)
        ensures
            p == &self.last_price,
    {
        &self.last_price
    }

    /// Whether more than one whole week has passed since the price was
    /// obtained, that is, `now` (seconds since the epoch) is at least two
    /// weeks later; an asset with no recorded time is not dated.
    pub open spec fn spec_price_is_dated(self, now: int) -> bool {
        match self.priced_at {
            Some(then) => now - then >= 1209600,
            None => false,
        }
    }

    pub fn price_is_dated(&self, now: i64) -> (r: bool)
        ensures
            r == self.spec_price_is_dated(now as int),
    {
        match self.priced_at {
            Some(then) => (now as i128) - (then as i128) >= 1209600,
            None => false,
        }
    }
}

/// Ordering for display: by name ascending, then by value descending, so a
/// same-named holding with the larger value comes first.
pub open spec fn asset_le(a: Asset, b: Asset) -> bool {
    let na = vstd::utf8::encode_utf8(a.name@);
    let nb = vstd::utf8::encode_utf8(b.name@);
    bytes_lt(na, nb) || (na == nb && b.value@.le(a.value@))
}

/// The asset order relates any two well-formed assets.
pub proof fn lemma_asset_le_total(a: Asset, b: Asset)
    requires
        a.wf(),
        b.wf(),
    ensures
        asset_le(a, b) || asset_le(b, a),
{
    let na = vstd::utf8::encode_utf8(a.name@);
    let nb = vstd::utf8::encode_utf8(b.name@);
    lemma_bytes_trichotomy(na, nb);
}

/// The asset order is transitive.
pub proof fn lemma_asset_le_trans(a: Asset, b: Asset, c: Asset)
    requires
        a.wf(),
        b.wf(),
        c.wf(),
        asset_le(a, b),
        asset_le(b, c),
    ensures
        asset_le(a, c),
{
    let na = vstd::utf8::encode_utf8(a.name@);
    let nb = vstd::utf8::encode_utf8(b.name@);
    let nc = vstd::utf8::encode_utf8(c.name@);
    if bytes_lt(na, nb) && bytes_lt(nb, nc) {
        lemma_bytes_lt_trans(na, nb, nc);
    } else if na == nb && nb == nc {
        crate::rational::lemma_le_trans(c.value@, b.value@, a.value@);
    }
}

/// Strict string order, decided byte by byte.
pub fn str_lt(a: &str, b: &str) -> (r: bool)
    ensures
        r == bytes_lt(a.spec_bytes(), b.spec_bytes()),
{
    let ab = a.as_bytes();
    let bb = b.as_bytes();
    let mut i: usize = 0;
    proof {
        assert(ab@.skip(0) =~= ab@);
        assert(bb@.skip(0) =~= bb@);
    }
    while i < ab.len() && i < bb.len()
        invariant
            ab@ == a.spec_bytes(),
            bb@ == b.spec_bytes(),
            i <= ab@.len(),
            i <= bb@.len(),
            bytes_lt(ab@, bb@) == bytes_lt(ab@.skip(i as int), bb@.skip(i as int)),
        decreases ab@.len() - i,
    {
        proof {
            assert(ab@.skip(i as int)[0] == ab@[i as int]);
            assert(bb@.skip(i as int)[0] == bb@[i as int]);
        }
        if ab[i] < bb[i] {
            return true;
        }
        if ab[i] > bb[i] {
            return false;
        }
        proof {
            assert(ab@.skip(i as int).drop_first() =~= ab@.skip(i as int + 1));
            assert(bb@.skip(i as int).drop_first() =~= bb@.skip(i as int + 1));
        }
        i = i + 1;
    }
    proof {
        if i == ab@.len() {
            assert(ab@.skip(i as int) =~= Seq::<u8>::empty());
        } else {
            assert(bb@.skip(i as int) =~= Seq::<u8>::empty());
        }
    }
    ab.len() < bb.len()
}

impl Asset {
    /// Whether this asset comes no later than `other` in display order.
    pub fn precedes(&self, other: &Asset) -> (r: bool)
        requires
            self.wf(),
            other.wf(),
        ensures
            r == asset_le(*self, *other),
    {
        if str_lt(self.name.as_str(), other.name.as_str()) {
            return true;
        }
        if str_eq(self.name.as_str(), other.name.as_str()) {
            proof {
                if self.name@ != other.name@ {
                }
            }
            other.value.le(&self.value)
        } else {
            proof {
                if vstd::utf8::encode_utf8(self.name@) == vstd::utf8::encode_utf8(other.name@) {
                    vstd::utf8::encode_utf8_decode_utf8(self.name@);
                    vstd::utf8::encode_utf8_decode_utf8(other.name@);
                }
            }
            false
        }
    }
}

impl AssetClass {
    /// The display name of each class.
    pub open spec fn spec_display_name(self) -> Seq<char> {
        match self {
            AssetClass::USBonds => "US bonds"@,
            AssetClass::USStocks => "US stocks"@,
            AssetClass::USTotal => "US total market"@,
            AssetClass::USSmall => "US small cap"@,
            AssetClass::IntlBonds => "International bonds"@,
            AssetClass::IntlStocks => "International stocks"@,
            AssetClass::REIT => "REIT"@,
            AssetClass::Target => "Target"@,
            AssetClass::Cash => "Cash"@,
        }
    }

    pub fn display_name(&self) -> (r: &'static str)
        ensures
            r@ == self.spec_display_name(),
    {
        match self {
            AssetClass::USBonds => "US bonds",
            AssetClass::USStocks => "US stocks",
            AssetClass::USTotal => "US total market",
            AssetClass::USSmall => "US small cap",
            AssetClass::IntlBonds => "International bonds",
            AssetClass::IntlStocks => "International stocks",
            AssetClass::REIT => "REIT",
            AssetClass::Target => "Target",
            AssetClass::Cash => "Cash",
        }
    }

    /// The class whose identifier is the given tag, as written in a
    /// classification table.
    pub open spec fn spec_from_name(name: Seq<char>) -> Option<AssetClass> {
        if name == "USBonds"@ {
            Some(AssetClass::USBonds)
        } else if name == "USStocks"@ {
            Some(AssetClass::USStocks)
        } else if name == "USTotal"@ {
            Some(AssetClass::USTotal)
        } else if name == "USSmall"@ {
            Some(AssetClass::USSmall)
        } else if name == "IntlBonds"@ {
            Some(AssetClass::IntlBonds)
        } else if name == "IntlStocks"@ {
            Some(AssetClass::IntlStocks)
        } else if name == "REIT"@ {
            Some(AssetClass::REIT)
        } else if name == "Target"@ {
            Some(AssetClass::Target)
        } else if name == "Cash"@ {
            Some(AssetClass::Cash)
        } else {
            None
        }
    }

    pub fn from_name(name: &str) -> (r: Option<AssetClass>)
        ensures
            r == AssetClass::spec_from_name(name@),
    {
        if str_eq(name, "USBonds") {
            Some(AssetClass::USBonds)
        } else if str_eq(name, "USStocks") {
            Some(AssetClass::USStocks)
        } else if str_eq(name, "USTotal") {
            Some(AssetClass::USTotal)
        } else if str_eq(name, "USSmall") {
            Some(AssetClass::USSmall)
        } else if str_eq(name, "IntlBonds") {
            Some(AssetClass::IntlBonds)
        } else if str_eq(name, "IntlStocks") {
            Some(AssetClass::IntlStocks)
        } else if str_eq(name, "REIT") {
            Some(AssetClass::REIT)
        } else if str_eq(name, "Target") {
            Some(AssetClass::Target)
        } else if str_eq(name, "Cash") {
            Some(AssetClass::Cash)
        } else {
            None
        }
    }
}

/// A holding whose fund name has no known asset class.
#[derive(Debug)]
pub struct UnclassifiedAssetError {
    pub fund_name: String,
}

impl UnclassifiedAssetError {
    pub fn new(fund_name: &str) -> (e: UnclassifiedAssetError)
        ensures
            e.fund_name@ == fund_name@,
    {
        UnclassifiedAssetError { fund_name: fund_name.to_owned() }
    }
}

/// The latest classification for a fund name, searching newest entries
/// first, as a later entry for the same name replaces an earlier one.
pub open spec fn spec_lookup(s: Seq<(String, AssetClass)>, name: Seq<char>) -> Option<AssetClass>
    decreases s.len(),
{
    if s.len() == 0 {
        None
    } else if s.last().0@ == name {
        Some(s.last().1)
    } else {
        spec_lookup(s.drop_last(), name)
    }
}

/// A table mapping fund ticker names to asset classes.
pub struct AssetClassifications {
    pub entries: Vec<(String, AssetClass)>,
}

impl AssetClassifications {
    pub fn new() -> (c: AssetClassifications)
        ensures
            c.entries@.len() == 0,
    {
        AssetClassifications { entries: Vec::new() }
    }

    pub fn add(&mut self, name: String, asset_class: AssetClass)
        ensures
            final(self).entries@ == old(self).entries@.push((name, asset_class)),
    {
        self.entries.push((name, asset_class));
    }

    /// The class of a fund, or an error naming the unclassified fund.
    pub fn classify(&self, fund_name: &str) -> (r: Result<AssetClass, UnclassifiedAssetError>)
        ensures
            match r {
                Ok(cls) => spec_lookup(self.entries@, fund_name@) == Some(cls),
                Err(e) => spec_lookup(self.entries@, fund_name@) is None && e.fund_name@
                    == fund_name@,
            },
    {
        let n = self.entries.len();
        let mut k: usize = n;
        proof {
            assert(self.entries@.take(n as int) =~= self.entries@);
        }
        while k > 0
            invariant
                k <= n,
                n == self.entries@.len(),
                spec_lookup(self.entries@, fund_name@) == spec_lookup(
                    self.entries@.take(k as int),
                    fund_name@,
                ),
            decreases k,
        {
            k = k - 1;
            let hit = str_eq(self.entries[k].0.as_str(), fund_name);
            proof {
                assert(self.entries@.take(k as int + 1).last() == self.entries@[k as int]);
                assert(self.entries@.take(k as int + 1).drop_last() =~= self.entries@.take(
                    k as int,
                ));
            }
            if hit {
                return Ok(self.entries[k].1);
            }
        }
        proof {
            assert(self.entries@.take(0) =~= Seq::<(String, AssetClass)>::empty());
        }
        Err(UnclassifiedAssetError::new(fund_name))
    }
}

} // verus!
