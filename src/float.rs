use core::cmp::Ordering;
use vstd::prelude::*;

verus! {

/// The order that the floating-point key adapter gives two values, from their
/// natural comparison (`None` when it has none) and whether each of them is
/// not a number. When only one side is not a number it comes after the other;
/// when both are, the first is placed before the second.
pub open spec fn float_order(natural: Option<Ordering>, self_nan: bool, other_nan: bool) -> Ordering {
    match natural {
        Some(o) => o,
        None => if self_nan && other_nan {
            Ordering::Less
        } else if self_nan {
            Ordering::Greater
        } else {
            Ordering::Less
        },
    }
}

/// Decides the adapter's order for two floating-point values. Values without
/// a natural comparison always include one that is not a number.
pub fn resolve_float_order(natural: Option<Ordering>, self_nan: bool, other_nan: bool) -> (r: Ordering)
    requires
        natural is None ==> self_nan || other_nan,
    ensures
        r == float_order(natural, self_nan, other_nan),
{
    match natural {
        Some(o) => o,
        None => {
            if self_nan && other_nan {
                Ordering::Less
            } else if self_nan {
                Ordering::Greater
            } else {
                Ordering::Less
            }
        },
    }
}

/// Comparing a value with itself: an ordinary value compares equal to itself,
/// so the adapter answers `Equal`; a value that is not a number has no natural
/// comparison with itself, and the adapter answers `Less`, not `Equal`, so the
/// adapter is reflexive exactly on the ordinary values.
pub proof fn lemma_float_order_self(is_nan: bool)
    ensures
        (float_order(if is_nan { None } else { Some(Ordering::Equal) }, is_nan, is_nan) == Ordering::Equal) == !is_nan,
{
}

/// The law-consistent variant of the adapter's order: it differs from
/// `float_order` only in answering `Equal` when both values are not a number.
pub open spec fn float_total_order(natural: Option<Ordering>, self_nan: bool, other_nan: bool) -> Ordering {
    if natural is None && self_nan && other_nan {
        Ordering::Equal
    } else {
        float_order(natural, self_nan, other_nan)
    }
}

/// Decides the law-consistent variant of the adapter's order.
pub fn resolve_float_total_order(natural: Option<Ordering>, self_nan: bool, other_nan: bool) -> (r: Ordering)
    requires
        natural is None ==> self_nan || other_nan,
    ensures
        r == float_total_order(natural, self_nan, other_nan),
{
    if natural.is_none() && self_nan && other_nan {
        Ordering::Equal
    } else {
        resolve_float_order(natural, self_nan, other_nan)
    }
}

/// The law-consistent variant answers `Equal` for every value compared with
/// itself, and it agrees with the adapter's order except on two values that
/// are both not a number.
pub proof fn lemma_float_total_order_self(is_nan: bool, natural: Option<Ordering>, self_nan: bool, other_nan: bool)
    ensures
        float_total_order(if is_nan { None } else { Some(Ordering::Equal) }, is_nan, is_nan) == Ordering::Equal,
        !(natural is None && self_nan && other_nan) ==> float_total_order(natural, self_nan, other_nan)
            == float_order(natural, self_nan, other_nan),
{
}

} // verus!
