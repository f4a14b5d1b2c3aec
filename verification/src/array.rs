//! The text of a well-formed source: an array of objects with a comma between one
//! and the next, and whitespace wherever JSON allows it.

use vstd::prelude::*;
use crate::chunk::{ARRAY_CLOSE, ARRAY_OPEN};
use crate::depth::{COMMA, OPEN_BRACE};
use crate::scan::object_ends_at;

verus! {

/// JSON whitespace: space, tab, line feed, carriage return.
pub open spec fn is_whitespace(byte: u8) -> bool {
    byte == 32 || byte == 9 || byte == 10 || byte == 13
}

/// Every byte of `s` is whitespace.
pub open spec fn is_padding(s: Seq<u8>) -> bool {
    forall|j: int| 0 <= j < s.len() ==> is_whitespace(#[trigger] s[j])
}

/// `s` is the text of one object as the scanner sees it: it begins with an opening
/// brace, and the closing brace that ends it is its last byte.
pub open spec fn is_object(s: Seq<u8>) -> bool {
    &&& s.len() > 0
    &&& s[0] == OPEN_BRACE
    &&& object_ends_at(s, s.len() - 1)
}

/// One element of an array: an object with the whitespace before and behind it.
pub ghost struct Item {
    pub lead: Seq<u8>,
    pub object: Seq<u8>,
    pub trail: Seq<u8>,
}

impl Item {
    /// The bytes of the element: whitespace, the object, whitespace.
    pub open spec fn text(self) -> Seq<u8> {
        self.lead + self.object + self.trail
    }

    /// The element is an object between whitespace.
    pub open spec fn wf(self) -> bool {
        is_padding(self.lead) && is_object(self.object) && is_padding(self.trail)
    }
}

/// The bytes of each element.
pub open spec fn texts(items: Seq<Item>) -> Seq<Seq<u8>> {
    Seq::new(items.len(), |k: int| items[k].text())
}

/// The array of the elements: an opening bracket, the elements with a comma
/// between each two, and a closing bracket.
pub open spec fn array_of(items: Seq<Item>) -> Seq<u8> {
    array_text(texts(items))
}

/// The elements from `a` up to, not including, `b`, with a comma between each
/// two, from the whitespace before the first object to the closing brace of the
/// last: neither a comma before the first element nor anything behind the last
/// object.
pub open spec fn run_of_items(items: Seq<Item>, a: int, b: int) -> Seq<u8> {
    let all = joined(texts(items).subrange(a, b));
    all.subrange(0, all.len() - items[b - 1].trail.len())
}

/// The texts one after the other, with a comma between each two.
pub open spec fn joined(items: Seq<Seq<u8>>) -> Seq<u8>
    decreases items.len(),
{
    if items.len() == 0 {
        Seq::empty()
    } else if items.len() == 1 {
        items[0]
    } else {
        joined(items.drop_last()) + seq![COMMA] + items.last()
    }
}

/// The array of the texts: an opening bracket, the texts with commas between
/// them, and a closing bracket.
pub open spec fn array_text(items: Seq<Seq<u8>>) -> Seq<u8> {
    seq![ARRAY_OPEN] + joined(items) + seq![ARRAY_CLOSE]
}

/// The offset in `array_text(items)` of the byte just before item `k`: the opening
/// bracket for the first item, else the comma before the item. With `k` the
/// number of items, the offset of the byte just behind the last item.
pub open spec fn gap(items: Seq<Seq<u8>>, k: int) -> int
    decreases k,
{
    if k <= 0 {
        0
    } else {
        gap(items, k - 1) + 1 + items[k - 1].len()
    }
}

/// The gaps lie in order, and two different gaps are at least two bytes apart
/// where the items between them are not empty.
pub proof fn lemma_gap_increases(items: Seq<Seq<u8>>, j: int, k: int)
    requires
        0 <= j <= k <= items.len(),
    ensures
        gap(items, j) + (k - j) <= gap(items, k),
        0 <= gap(items, j),
    decreases k,
{
    if j < k {
        lemma_gap_increases(items, j, k - 1);
    } else if k > 0 {
        lemma_gap_increases(items, j - 1, k - 1);
    }
}

/// A gap depends on the items before it alone.
proof fn lemma_gap_of_prefix(items: Seq<Seq<u8>>, k: int)
    requires
        0 <= k < items.len(),
    ensures
        gap(items.drop_last(), k) == gap(items, k),
    decreases k,
{
    if k > 0 {
        lemma_gap_of_prefix(items, k - 1);
    }
}

/// Where the items and the commas stand in the joined text.
proof fn lemma_joined_layout(items: Seq<Seq<u8>>)
    requires
        items.len() > 0,
    ensures
        joined(items).len() == gap(items, items.len() as int) - 1,
        forall|k: int, j: int|
            0 <= k < items.len() && 0 <= j < items[k].len() ==> joined(items)[gap(items, k) + j]
                == #[trigger] items[k][j],
        forall|k: int|
            0 < k < items.len() ==> joined(items)[#[trigger] gap(items, k) - 1] == COMMA,
    decreases items.len(),
{
    let n = items.len() as int;
    assert(gap(items, 0) == 0);
    assert(gap(items, n) == gap(items, n - 1) + 1 + items[n - 1].len());
    if n > 1 {
        let front = items.drop_last();
        let head = joined(front);
        let text = joined(items);
        lemma_joined_layout(front);
        lemma_gap_of_prefix(items, n - 1);
        assert(text == head + seq![COMMA] + items.last());
        assert(head.len() == gap(items, n - 1) - 1);
        assert(text.len() == head.len() + 1 + items.last().len());
        assert forall|k: int, j: int| 0 <= k < n && 0 <= j < items[k].len() implies text[gap(
            items,
            k,
        ) + j] == #[trigger] items[k][j] by {
            lemma_gap_increases(items, 0, k);
            if k < n - 1 {
                lemma_gap_of_prefix(items, k);
                lemma_gap_of_prefix(items, k + 1);
                lemma_gap_increases(front, k + 1, n - 1);
                assert(front[k] == items[k]);
                assert(gap(front, k + 1) == gap(front, k) + 1 + front[k].len());
                assert(gap(items, k) + j < head.len());
                assert(head[gap(front, k) + j] == front[k][j]);
                assert(text[gap(items, k) + j] == head[gap(items, k) + j]);
            } else {
                assert(text[head.len() + 1 + j] == items.last()[j]);
            }
        }
        assert forall|k: int| 0 < k < n implies text[#[trigger] gap(items, k) - 1] == COMMA by {
            lemma_gap_increases(items, 0, k);
            if k < n - 1 {
                lemma_gap_of_prefix(items, k);
                lemma_gap_increases(front, k, n - 1);
                assert(gap(items, k) - 1 < head.len());
                assert(head[gap(front, k) - 1] == COMMA);
                assert(text[gap(items, k) - 1] == head[gap(items, k) - 1]);
            } else {
                assert(text[head.len() as int] == COMMA);
            }
        }
    } else {
        assert(joined(items) == items[0]);
    }
}

/// Where the brackets, the items and the commas stand in the array: item `k` fills
/// the bytes between gap `k` and gap `k + 1`, a comma stands at every gap between
/// two items, and the closing bracket at the last gap ends the text.
proof fn lemma_array_layout(items: Seq<Seq<u8>>)
    requires
        items.len() > 0,
    ensures
        array_text(items).len() == gap(items, items.len() as int) + 1,
        array_text(items)[0] == ARRAY_OPEN,
        array_text(items)[gap(items, items.len() as int)] == ARRAY_CLOSE,
        forall|k: int, j: int|
            0 <= k < items.len() && 0 <= j < items[k].len() ==> array_text(items)[gap(items, k)
                + 1 + j] == #[trigger] items[k][j],
        forall|k: int|
            0 < k < items.len() ==> array_text(items)[#[trigger] gap(items, k)] == COMMA,
{
    lemma_joined_layout(items);
    let text = array_text(items);
    let inner = joined(items);
    assert forall|k: int, j: int| 0 <= k < items.len() && 0 <= j < items[k].len() implies text[gap(
        items,
        k,
    ) + 1 + j] == #[trigger] items[k][j] by {
        lemma_gap_increases(items, 0, k);
        lemma_gap_increases(items, k + 1, items.len() as int);
        assert(text[gap(items, k) + 1 + j] == inner[gap(items, k) + j]);
    }
    assert forall|k: int| 0 < k < items.len() implies text[#[trigger] gap(items, k)] == COMMA by {
        lemma_gap_increases(items, 0, k);
        lemma_gap_increases(items, k, items.len() as int);
        assert(text[gap(items, k)] == inner[gap(items, k) - 1]);
    }
}

/// The array ends with its closing bracket at the last gap.
pub proof fn lemma_array_ends(items: Seq<Seq<u8>>)
    requires
        items.len() > 0,
    ensures
        array_text(items).len() == gap(items, items.len() as int) + 1,
        array_text(items)[0] == ARRAY_OPEN,
        array_text(items)[gap(items, items.len() as int)] == ARRAY_CLOSE,
{
    lemma_array_layout(items);
}

/// Byte `j` of item `k` stands `j + 1` bytes behind gap `k`.
pub proof fn lemma_item_byte(items: Seq<Seq<u8>>, k: int, j: int)
    requires
        0 <= k < items.len(),
        0 <= j < items[k].len(),
    ensures
        array_text(items)[gap(items, k) + 1 + j] == items[k][j],
{
    lemma_array_layout(items);
}

/// A comma stands at every gap between two items.
pub proof fn lemma_comma_at_gap(items: Seq<Seq<u8>>, k: int)
    requires
        0 < k < items.len(),
    ensures
        array_text(items)[gap(items, k)] == COMMA,
{
    lemma_array_layout(items);
}

/// The bytes of the array between the gap before item `a` and the gap behind item
/// `b - 1` are those items, joined by commas.
pub proof fn lemma_gap_slice(items: Seq<Seq<u8>>, a: int, b: int)
    requires
        0 <= a < b <= items.len(),
    ensures
        array_text(items).subrange(gap(items, a) + 1, gap(items, b)) == joined(
            items.subrange(a, b),
        ),
    decreases b - a,
{
    let text = array_text(items);
    let part = items.subrange(a, b);
    lemma_array_ends(items);
    lemma_gap_increases(items, 0, a);
    lemma_gap_increases(items, a, b - 1);
    lemma_gap_increases(items, b, items.len() as int);
    assert(gap(items, b) == gap(items, b - 1) + 1 + items[b - 1].len());
    assert(part.last() == items[b - 1]);
    let item = items[b - 1];
    assert(text.subrange(gap(items, b - 1) + 1, gap(items, b)) =~= item) by {
        assert forall|j: int| 0 <= j < item.len() implies text[gap(items, b - 1) + 1 + j]
            == #[trigger] item[j] by {
            lemma_item_byte(items, b - 1, j);
        }
    }
    if b == a + 1 {
        assert(joined(part) == part[0]);
    } else {
        lemma_gap_slice(items, a, b - 1);
        assert(part.drop_last() == items.subrange(a, b - 1));
        lemma_comma_at_gap(items, b - 1);
        assert(joined(part) == joined(part.drop_last()) + seq![COMMA] + part.last());
        assert(text.subrange(gap(items, a) + 1, gap(items, b)) == text.subrange(
            gap(items, a) + 1,
            gap(items, b - 1),
        ) + seq![COMMA] + text.subrange(gap(items, b - 1) + 1, gap(items, b)));
    }
}

} // verus!
