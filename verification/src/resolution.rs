//! Image resolutions and the fixed catalog of resolutions offered for rendering.

use vstd::arithmetic::div_mod::*;
use vstd::arithmetic::power2::*;
use vstd::prelude::*;
use vstd::string::*;

verus! {

/// Width and height of an image, in pixels.
#[derive(Copy, Clone, PartialEq, Eq, Debug, Structural)]
pub struct Resolution {
    pub width: i32,
    pub height: i32,
}

/// `value * 2^exponent`, rounded toward zero and held to the range of `i32`.
pub open spec fn scaled_dimension(value: int, exponent: int) -> int {
    if exponent >= 0 {
        let exact = value * pow2(exponent as nat);
        if exact > i32::MAX {
            i32::MAX as int
        } else if exact < i32::MIN {
            i32::MIN as int
        } else {
            exact
        }
    } else {
        let divisor = pow2((-exponent) as nat) as int;
        if value >= 0 {
            value / divisor
        } else {
            -((-value) / divisor)
        }
    }
}

/// The two resolutions from which the catalog is generated.
pub open spec fn base_resolutions() -> Seq<Resolution> {
    seq![Resolution { width: 1600, height: 1200 }, Resolution { width: 1920, height: 1080 }]
}

/// The resolutions on offer: each base resolution at a quarter, a half, one, two and
/// four times its size, by ascending width.
pub open spec fn catalog() -> Seq<Resolution> {
    seq![
        Resolution { width: 400, height: 300 },
        Resolution { width: 480, height: 270 },
        Resolution { width: 800, height: 600 },
        Resolution { width: 960, height: 540 },
        Resolution { width: 1600, height: 1200 },
        Resolution { width: 1920, height: 1080 },
        Resolution { width: 3200, height: 2400 },
        Resolution { width: 3840, height: 2160 },
        Resolution { width: 6400, height: 4800 },
        Resolution { width: 7680, height: 4320 },
    ]
}

/// No entry is wider than a later one.
pub open spec fn sorted_by_width(list: Seq<Resolution>) -> bool {
    forall|i: int, j: int| 0 <= i <= j < list.len() ==> list[i].width <= list[j].width
}

/// `list` with `item` placed behind the last entry that is not wider than it.
/// `list` is meant to be sorted by width.
pub open spec fn inserted_by_width(list: Seq<Resolution>, item: Resolution) -> Seq<Resolution>
    decreases list.len(),
{
    if list.len() == 0 {
        seq![item]
    } else if list.last().width <= item.width {
        list.push(item)
    } else {
        inserted_by_width(list.drop_last(), item).push(list.last())
    }
}

/// `list` ordered by ascending width; entries of equal width keep their order.
pub open spec fn sorted_seq(list: Seq<Resolution>) -> Seq<Resolution>
    decreases list.len(),
{
    if list.len() == 0 {
        list
    } else {
        inserted_by_width(sorted_seq(list.drop_last()), list.last())
    }
}

/// Inserting into a sorted list keeps its entries and gives a sorted list.
pub proof fn lemma_inserted_by_width(list: Seq<Resolution>, item: Resolution)
    requires
        sorted_by_width(list),
    ensures
        sorted_by_width(inserted_by_width(list, item)),
        inserted_by_width(list, item).len() == list.len() + 1,
        inserted_by_width(list, item).to_multiset() == list.to_multiset().insert(item),
    decreases list.len(),
{
    broadcast use vstd::seq_lib::group_to_multiset_ensures;

    let result = inserted_by_width(list, item);
    if list.len() == 0 {
        assert(list =~= Seq::empty());
        assert(result =~= Seq::<Resolution>::empty().push(item));
    } else if list.last().width <= item.width {
    } else {
        let front = list.drop_last();
        let inner = inserted_by_width(front, item);
        assert(sorted_by_width(front));
        lemma_inserted_by_width(front, item);
        assert(list =~= front.push(list.last()));
        assert(result.to_multiset() =~= list.to_multiset().insert(item));
        assert forall|i: int, j: int| 0 <= i <= j < result.len() implies result[i].width
            <= result[j].width by {
            if j == result.len() - 1 && i < j {
                // Every entry of `inner` is `item` or an entry of `front`.
                assert(inner.to_multiset().count(inner[i]) > 0);
                if inner[i] != item {
                    assert(front.to_multiset().count(inner[i]) > 0);
                    assert(front.contains(inner[i]));
                    let k = choose|k: int| 0 <= k < front.len() && front[k] == inner[i];
                    assert(list[k] == inner[i]);
                }
            }
        }
    }
}

/// The sorted list holds the entries of the list, by ascending width.
pub proof fn lemma_sorted_seq(list: Seq<Resolution>)
    ensures
        sorted_by_width(sorted_seq(list)),
        sorted_seq(list).len() == list.len(),
        sorted_seq(list).to_multiset() == list.to_multiset(),
    decreases list.len(),
{
    broadcast use vstd::seq_lib::group_to_multiset_ensures;

    if list.len() > 0 {
        lemma_sorted_seq(list.drop_last());
        lemma_inserted_by_width(sorted_seq(list.drop_last()), list.last());
        assert(list =~= list.drop_last().push(list.last()));
    }
}

/// Sorting a list that is sorted already changes nothing.
pub proof fn lemma_sorted_seq_of_sorted(list: Seq<Resolution>)
    requires
        sorted_by_width(list),
    ensures
        sorted_seq(list) == list,
    decreases list.len(),
{
    if list.len() > 0 {
        let front = list.drop_last();
        assert(sorted_by_width(front));
        lemma_sorted_seq_of_sorted(front);
        if front.len() > 0 {
            assert(front.last() == list[list.len() - 2]);
        }
        assert(list =~= front.push(list.last()));
    }
}

/// The character that stands for the digit `d`.
pub open spec fn digit(d: nat) -> char {
    if d == 0 {
        '0'
    } else if d == 1 {
        '1'
    } else if d == 2 {
        '2'
    } else if d == 3 {
        '3'
    } else if d == 4 {
        '4'
    } else if d == 5 {
        '5'
    } else if d == 6 {
        '6'
    } else if d == 7 {
        '7'
    } else if d == 8 {
        '8'
    } else {
        '9'
    }
}

/// `n` in decimal digits, the most significant first.
pub open spec fn decimal(n: nat) -> Seq<char>
    decreases n,
{
    if n < 10 {
        seq![digit(n)]
    } else {
        decimal(n / 10).push(digit(n % 10))
    }
}

/// `n` in decimal digits, behind a minus sign where it is negative.
pub open spec fn signed_decimal(n: int) -> Seq<char> {
    if n < 0 {
        seq!['-'] + decimal((-n) as nat)
    } else {
        decimal(n as nat)
    }
}

/// The catalog holds the two base resolutions at each of the five scales, and is
/// sorted by width.
pub proof fn lemma_catalog_is_generated()
    ensures
        catalog().len() == 10,
        sorted_by_width(catalog()),
        forall|i: int|
            0 <= i < 10 ==> catalog()[i] == #[trigger] base_resolutions()[i % 2].spec_scaled(
                i / 2 - 2,
            ),
{
    lemma2_to64();
    let wide = Resolution { width: 1600, height: 1200 };
    let high = Resolution { width: 1920, height: 1080 };
    assert(base_resolutions()[0] == wide);
    assert(base_resolutions()[1] == high);
    assert(pow2(2) == 4 && pow2(1) == 2);
    assert(1600int / 4 == 400 && 1200int / 4 == 300 && 1920int / 4 == 480 && 1080int / 4 == 270);
    assert(1600int / 2 == 800 && 1200int / 2 == 600 && 1920int / 2 == 960 && 1080int / 2 == 540);
    assert(wide.spec_scaled(-2) == Resolution { width: 400, height: 300 });
    assert(high.spec_scaled(-2) == Resolution { width: 480, height: 270 });
    assert(wide.spec_scaled(-1) == Resolution { width: 800, height: 600 });
    assert(high.spec_scaled(-1) == Resolution { width: 960, height: 540 });
    assert(wide.spec_scaled(0) == Resolution { width: 1600, height: 1200 });
    assert(high.spec_scaled(0) == Resolution { width: 1920, height: 1080 });
    assert(wide.spec_scaled(1) == Resolution { width: 3200, height: 2400 });
    assert(high.spec_scaled(1) == Resolution { width: 3840, height: 2160 });
    assert(wide.spec_scaled(2) == Resolution { width: 6400, height: 4800 });
    assert(high.spec_scaled(2) == Resolution { width: 7680, height: 4320 });
    assert forall|i: int| 0 <= i < 10 implies catalog()[i] == #[trigger] base_resolutions()[i
        % 2].spec_scaled(i / 2 - 2) by {
        if i == 0 {
        } else if i == 1 {
        } else if i == 2 {
        } else if i == 3 {
        } else if i == 4 {
        } else if i == 5 {
        } else if i == 6 {
        } else if i == 7 {
        } else if i == 8 {
        } else {
            assert(i == 9);
        }
    }
}

impl Resolution {
    /// The resolution of `x` by `y` pixels.
    pub fn new(x: i32, y: i32) -> (r: Self)
        ensures
            r == (Resolution { width: x, height: y }),
    {
        Resolution { width: x, height: y }
    }

    /// This resolution with both sides multiplied by `2^exponent`.
    pub open spec fn spec_scaled(self, exponent: int) -> Resolution {
        Resolution {
            width: scaled_dimension(self.width as int, exponent) as i32,
            height: scaled_dimension(self.height as int, exponent) as i32,
        }
    }

    /// Multiplies both sides by `2^exponent`. A negative exponent divides, rounding
    /// toward zero; a side that leaves the range of `i32` stops at its nearest bound.
    pub fn scaled(self, exponent: i32) -> (r: Self)
        ensures
            r == self.spec_scaled(exponent as int),
            r.width == scaled_dimension(self.width as int, exponent as int),
            r.height == scaled_dimension(self.height as int, exponent as int),
    {
        Resolution {
            width: scale_dimension(self.width, exponent),
            height: scale_dimension(self.height, exponent),
        }
    }

    /// The resolution as it is shown: the width, an `x`, the height.
    pub open spec fn spec_label(self) -> Seq<char> {
        signed_decimal(self.width as int) + seq!['x'] + signed_decimal(self.height as int)
    }

    /// The resolution as it is shown: `800x600`.
    pub fn label(&self) -> (text: String)
        ensures
            text@ == self.spec_label(),
    {
        let mut text = String::new();
        push_signed(&mut text, self.width);
        proof {
            reveal_strlit("x");
            assert("x"@ =~= seq!['x']);
        }
        text.append("x");
        push_signed(&mut text, self.height);
        proof {
            assert(text@ =~= self.spec_label());
        }
        text
    }

    /// The number of pixels per side, where neither side is negative.
    pub fn size(self) -> (r: Option<(usize, usize)>)
        ensures
            r is Some <==> self.width >= 0 && self.height >= 0,
            r matches Some((w, h)) ==> w == self.width && h == self.height,
    {
        if self.width >= 0 && self.height >= 0 {
            Some((self.width as usize, self.height as usize))
        } else {
            None
        }
    }

    /// The catalog of resolutions: the two base resolutions, each scaled by
    /// `2^-2` up to `2^2`, sorted by ascending width.
    pub fn available() -> (list: Vec<Resolution>)
        ensures
            list@ == catalog(),
            sorted_by_width(list@),
            forall|i: int|
                0 <= i < 10 ==> list@[i] == #[trigger] base_resolutions()[i % 2].spec_scaled(
                    i / 2 - 2,
                ),
    {
        let mut list: Vec<Resolution> = Vec::new();
        let mut exponent: i32 = -2;
        proof {
            lemma2_to64();
        }
        while exponent < 3
            invariant
                -2 <= exponent <= 3,
                list@.len() == 2 * (exponent + 2),
                forall|i: int|
                    0 <= i < list@.len() ==> list@[i] == #[trigger] base_resolutions()[i
                        % 2].spec_scaled(i / 2 - 2),
            decreases 3 - exponent,
        {
            list.push(Resolution::new(1600, 1200).scaled(exponent));
            list.push(Resolution::new(1920, 1080).scaled(exponent));
            exponent = exponent + 1;
        }
        proof {
            lemma_catalog_is_generated();
            assert(list@.len() == 10);
            assert forall|i: int| 0 <= i < 10 implies list@[i] == catalog()[i] by {
                assert(list@[i] == base_resolutions()[i % 2].spec_scaled(i / 2 - 2));
            }
            assert(list@ =~= catalog());
            lemma_sorted_seq_of_sorted(list@);
        }
        sort_by_width(&mut list);
        list
    }
}

/// Orders `list` by ascending width. Entries of equal width keep their order.
pub fn sort_by_width(list: &mut Vec<Resolution>)
    ensures
        final(list)@ == sorted_seq(old(list)@),
        sorted_by_width(final(list)@),
        final(list)@.to_multiset() == old(list)@.to_multiset(),
{
    let ghost given = list@;
    let mut i: usize = 0;
    proof {
        assert(list@.take(0) =~= Seq::empty());
    }
    while i < list.len()
        invariant
            i <= list@.len(),
            list@.len() == given.len(),
            list@.take(i as int) == sorted_seq(given.take(i as int)),
            list@.skip(i as int) == given.skip(i as int),
        decreases list@.len() - i,
    {
        let item = list[i];
        let ghost before = list@;
        let ghost front = before.take(i as int);
        proof {
            lemma_sorted_seq(given.take(i as int));
            assert(given.take(i as int + 1).drop_last() =~= given.take(i as int));
            assert(given.take(i as int + 1).last() == given[i as int]);
            assert(before.skip(i as int)[0] == given.skip(i as int)[0]);
        }
        // Walk left past every entry that is wider than `item`.
        let mut j: usize = i;
        proof {
            assert(front.take(i as int) =~= front);
            assert(front.skip(i as int) =~= Seq::empty());
            assert(inserted_by_width(front, item) + Seq::empty() =~= inserted_by_width(
                front,
                item,
            ));
        }
        while j > 0 && list[j - 1].width > item.width
            invariant
                j <= i < list@.len(),
                list@ == before,
                front == before.take(i as int),
                sorted_by_width(front),
                inserted_by_width(front, item) == inserted_by_width(front.take(j as int), item)
                    + front.skip(j as int),
            decreases j,
        {
            proof {
                let shorter = front.take(j as int);
                assert(shorter.last() == before[j - 1]);
                assert(shorter.drop_last() =~= front.take(j as int - 1));
                assert(front.skip(j as int - 1) =~= seq![shorter.last()] + front.skip(j as int));
                assert(inserted_by_width(shorter, item) == inserted_by_width(
                    shorter.drop_last(),
                    item,
                ).push(shorter.last()));
                assert(inserted_by_width(front.take(j as int - 1), item).push(shorter.last())
                    + front.skip(j as int) =~= inserted_by_width(front.take(j as int - 1), item)
                    + front.skip(j as int - 1));
            }
            j = j - 1;
        }
        proof {
            let shorter = front.take(j as int);
            if j > 0 {
                assert(shorter.last() == before[j - 1]);
            } else {
                assert(shorter =~= Seq::empty());
            }
            assert(inserted_by_width(shorter, item) =~= shorter.push(item));
        }
        if j < i {
            list.remove(i);
            list.insert(j, item);
        }
        proof {
            assert(list@.take(i as int + 1) =~= front.take(j as int).push(item) + front.skip(
                j as int,
            ));
            assert forall|k: int| i < k < before.len() implies list@[k] == before[k] by {}
            assert forall|k: int| 0 <= k < before.len() - i - 1 implies #[trigger] list@.skip(
                i as int + 1,
            )[k] == given.skip(i as int + 1)[k] by {
                assert(list@[k + i + 1] == before[k + i + 1]);
                assert(before.skip(i as int)[k + 1] == given.skip(i as int)[k + 1]);
            }
            assert(list@.skip(i as int + 1) =~= given.skip(i as int + 1));
        }
        i = i + 1;
    }
    proof {
        assert(list@.take(i as int) =~= list@);
        assert(given.take(i as int) =~= given);
        lemma_sorted_seq(given);
    }
}

/// The text of one digit.
fn digit_text(d: u32) -> (text: &'static str)
    requires
        d < 10,
    ensures
        text@ == seq![digit(d as nat)],
{
    proof {
        reveal_strlit("0");
        reveal_strlit("1");
        reveal_strlit("2");
        reveal_strlit("3");
        reveal_strlit("4");
        reveal_strlit("5");
        reveal_strlit("6");
        reveal_strlit("7");
        reveal_strlit("8");
        reveal_strlit("9");
        assert("0"@ =~= seq!['0']);
        assert("1"@ =~= seq!['1']);
        assert("2"@ =~= seq!['2']);
        assert("3"@ =~= seq!['3']);
        assert("4"@ =~= seq!['4']);
        assert("5"@ =~= seq!['5']);
        assert("6"@ =~= seq!['6']);
        assert("7"@ =~= seq!['7']);
        assert("8"@ =~= seq!['8']);
        assert("9"@ =~= seq!['9']);
    }
    if d == 0 {
        "0"
    } else if d == 1 {
        "1"
    } else if d == 2 {
        "2"
    } else if d == 3 {
        "3"
    } else if d == 4 {
        "4"
    } else if d == 5 {
        "5"
    } else if d == 6 {
        "6"
    } else if d == 7 {
        "7"
    } else if d == 8 {
        "8"
    } else {
        "9"
    }
}

/// Appends `n` in decimal digits.
fn push_decimal(text: &mut String, n: u32)
    ensures
        final(text)@ == old(text)@ + decimal(n as nat),
    decreases n,
{
    if n >= 10 {
        push_decimal(text, n / 10);
    }
    text.append(digit_text(n % 10));
    proof {
        if n >= 10 {
            assert(text@ =~= old(text)@ + decimal(n as nat / 10).push(digit(n as nat % 10)));
        } else {
            assert(text@ =~= old(text)@ + seq![digit(n as nat)]);
        }
    }
}

/// Appends `n` in decimal digits, behind a minus sign where it is negative.
fn push_signed(text: &mut String, n: i32)
    ensures
        final(text)@ == old(text)@ + signed_decimal(n as int),
{
    if n < 0 {
        proof {
            reveal_strlit("-");
            assert("-"@ =~= seq!['-']);
        }
        text.append("-");
        push_decimal(text, (-(n as i64)) as u32);
        proof {
            assert(text@ =~= old(text)@ + (seq!['-'] + decimal((-n) as nat)));
        }
    } else {
        push_decimal(text, n as u32);
    }
}

/// `value * 2^exponent`, rounded toward zero and held to the range of `i32`.
fn scale_dimension(value: i32, exponent: i32) -> (r: i32)
    ensures
        r == scaled_dimension(value as int, exponent as int),
{
    if value == 0 {
        proof {
            lemma_div_basics(pow2((-exponent) as nat) as int);
            if exponent < 0 {
                lemma_pow2_pos((-exponent) as nat);
            }
        }
        return 0;
    }
    if exponent >= 0 {
        let mut product: i64 = value as i64;
        let mut doubled: i32 = 0;
        proof {
            lemma2_to64();
            assert(value * pow2(0) == value) by (nonlinear_arith)
                requires
                    pow2(0) == 1,
            ;
        }
        while doubled < exponent && i32::MIN as i64 <= product && product <= i32::MAX as i64
            invariant
                0 <= doubled <= exponent,
                value != 0,
                product == value * pow2(doubled as nat),
                -0x1_0000_0000 <= product <= 0x1_0000_0000,
            decreases exponent - doubled,
        {
            proof {
                lemma_pow2_unfold((doubled + 1) as nat);
                assert(value * (2 * pow2(doubled as nat)) == 2 * (value * pow2(doubled as nat)))
                    by (nonlinear_arith);
            }
            product = product * 2;
            doubled = doubled + 1;
        }
        proof {
            // The exact product lies at least as far from zero as `product` does.
            let rest = pow2((exponent - doubled) as nat) as int;
            lemma_pow2_pos((exponent - doubled) as nat);
            lemma_pow2_adds(doubled as nat, (exponent - doubled) as nat);
            assert(value * pow2(exponent as nat) == product * rest) by (nonlinear_arith)
                requires
                    product == value * pow2(doubled as nat),
                    pow2(exponent as nat) == pow2(doubled as nat) * rest,
            ;
            if product > i32::MAX {
                assert(product * rest >= product) by (nonlinear_arith)
                    requires
                        product > 0,
                        rest >= 1,
                ;
            } else if product < i32::MIN {
                assert(product * rest <= product) by (nonlinear_arith)
                    requires
                        product < 0,
                        rest >= 1,
                ;
            } else {
                assert(doubled == exponent);
                assert(rest == 1) by {
                    lemma2_to64();
                }
                assert(product * rest == product) by (nonlinear_arith)
                    requires
                        rest == 1,
                ;
            }
        }
        if product > i32::MAX as i64 {
            i32::MAX
        } else if product < i32::MIN as i64 {
            i32::MIN
        } else {
            product as i32
        }
    } else {
        let negative = value < 0;
        let mut magnitude: u32 = if negative {
            (-(value as i64)) as u32
        } else {
            value as u32
        };
        let ghost whole = magnitude as int;
        let mut left: i64 = -(exponent as i64);
        let ghost shift = left as nat;
        proof {
            lemma2_to64();
            lemma_div_basics(whole);
        }
        while left > 0 && magnitude > 0
            invariant
                0 <= left <= shift,
                0 <= whole,
                magnitude == whole / (pow2((shift - left) as nat) as int),
            decreases left,
        {
            proof {
                let halved = (shift - left) as nat;
                lemma_pow2_pos(halved);
                lemma_pow2_unfold(halved + 1);
                lemma_div_denominator(whole, pow2(halved) as int, 2);
                assert(pow2(halved) * 2 == 2 * pow2(halved)) by (nonlinear_arith);
            }
            magnitude = magnitude / 2;
            left = left - 1;
        }
        proof {
            let halved = (shift - left) as nat;
            let rest = left as nat;
            lemma_pow2_pos(halved);
            lemma_pow2_pos(rest);
            lemma_pow2_pos(shift);
            lemma_pow2_adds(halved, rest);
            lemma_div_denominator(whole, pow2(halved) as int, pow2(rest) as int);
            if left > 0 {
                assert(magnitude == 0);
                lemma_div_basics(pow2(rest) as int);
            } else {
                assert(pow2(rest) == 1);
                lemma_div_basics(whole / (pow2(halved) as int));
            }
            assert(magnitude == whole / (pow2(shift) as int));
        }
        if negative {
            -(magnitude as i64) as i32
        } else {
            magnitude as i32
        }
    }
}

} // verus!
