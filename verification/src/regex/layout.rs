use vstd::prelude::*;

verus! {

/// Whether the list of the end state (list 1) is empty and every item of every list is a state
/// below `n`.
pub open spec fn lists_below(lists: Seq<Seq<u16>>, n: int) -> bool {
    &&& lists.len() >= 2
    &&& lists[1].len() == 0
    &&& forall|i: int, j: int| 0 <= i < lists.len() && 0 <= j < lists[i].len() ==> #[trigger] lists[i][j] < n
}

/// Appending a list of states below `n2` to lists of states below `n <= n2`.
pub proof fn lemma_below_push(lists: Seq<Seq<u16>>, l: Seq<u16>, n: int, n2: int)
    requires
        lists_below(lists, n),
        n <= n2,
        forall|j: int| 0 <= j < l.len() ==> l[j] < n2,
    ensures
        lists_below(lists.push(l), n2),
{
    let t = lists.push(l);
    assert(t[1] == lists[1]);
    assert forall|i: int, j: int| 0 <= i < t.len() && 0 <= j < t[i].len() implies #[trigger] t[i][j] < n2 by {
        if i < lists.len() {
            assert(t[i] == lists[i]);
            assert(lists[i][j] < n);
        }
    }
}

/// Replacing the first item of a list other than the end state's with a state below `n`.
pub proof fn lemma_below_first(lists: Seq<Seq<u16>>, k: int, x: u16, n: int)
    requires
        lists_below(lists, n),
        0 <= k < lists.len(),
        k != 1,
        lists[k].len() >= 1,
        x < n,
    ensures
        lists_below(lists.update(k, lists[k].update(0, x)), n),
{
    let t = lists.update(k, lists[k].update(0, x));
    assert(t[1] == lists[1]);
    assert forall|i: int, j: int| 0 <= i < t.len() && 0 <= j < t[i].len() implies #[trigger] t[i][j] < n by {
        if i != k {
            assert(t[i] == lists[i]);
            assert(lists[i][j] < n);
        } else if j != 0 {
            assert(t[i][j] == lists[i][j]);
            assert(lists[i][j] < n);
        }
    }
}

/// Where list `k` starts when the lists are laid out one after another from offset 0, each a
/// four-word header followed by its items.
pub open spec fn list_off(lists: Seq<Seq<u16>>, k: int) -> int
    decreases k,
{
    if k <= 0 {
        0
    } else {
        list_off(lists, k - 1) + 4 + lists[k - 1].len()
    }
}

/// The number of words that the lists take.
pub open spec fn lists_end(lists: Seq<Seq<u16>>) -> int {
    list_off(lists, lists.len() as int)
}

/// Whether the words hold the lists: at the start of list `k` its length, four words further on
/// its items.
pub open spec fn laid_out(ws: Seq<u16>, lists: Seq<Seq<u16>>) -> bool {
    &&& lists_end(lists) <= ws.len()
    &&& forall|k: int| 0 <= k < lists.len() ==> ws[#[trigger] list_off(lists, k)] == lists[k].len()
    &&& forall|k: int, j: int|
        0 <= k < lists.len() && 0 <= j < lists[k].len() ==> ws[list_off(lists, k) + 4 + j]
            == #[trigger] lists[k][j]
}


/// Pushing a list keeps the starts of the lists before it.
pub proof fn lemma_lists_push(lists: Seq<Seq<u16>>, x: Seq<u16>)
    ensures
        forall|k: int| 0 <= k <= lists.len() ==> #[trigger] list_off(lists.push(x), k) == list_off(lists, k),
        lists_end(lists.push(x)) == lists_end(lists) + 4 + x.len(),
{
    assert forall|k: int| 0 <= k <= lists.len() implies #[trigger] list_off(lists.push(x), k) == list_off(lists, k) by {
        lemma_list_off_same(lists.push(x), lists, k);
    }
    assert(list_off(lists.push(x), lists.len() + 1int) == list_off(lists.push(x), lists.len() as int) + 4 + x.len());
}

/// Replacing a list by one of the same length keeps every start.
pub proof fn lemma_lists_update(lists: Seq<Seq<u16>>, k: int, x: Seq<u16>)
    requires
        0 <= k < lists.len(),
        x.len() == lists[k].len(),
    ensures
        forall|i: int| 0 <= i <= lists.len() ==> #[trigger] list_off(lists.update(k, x), i) == list_off(lists, i),
        lists_end(lists.update(k, x)) == lists_end(lists),
{
    assert forall|i: int| 0 <= i <= lists.len() implies #[trigger] list_off(lists.update(k, x), i) == list_off(lists, i) by {
        lemma_list_off_same(lists.update(k, x), lists, i);
    }
}

/// The words from `p` on are zero.
pub open spec fn zero_from(ws: Seq<u16>, p: int) -> bool {
    forall|i: int| p <= i < ws.len() ==> #[trigger] ws[i] == 0
}

/// Writing a header word other than the length keeps the lists.
pub proof fn lemma_header_write(ws: Seq<u16>, lists: Seq<Seq<u16>>, k: int, d: int, v: u16)
    requires
        laid_out(ws, lists),
        0 <= k < lists.len(),
        1 <= d <= 3,
        list_off(lists, k) + d < ws.len(),
    ensures
        laid_out(ws.update(list_off(lists, k) + d, v), lists),
{
    let p = list_off(lists, k) + d;
    let ws2 = ws.update(p, v);
    lemma_list_off_mono(lists, 0, k);
    assert forall|i: int| 0 <= i < lists.len() implies ws2[#[trigger] list_off(lists, i)] == lists[i].len() by {
        lemma_list_off_mono(lists, 0, i);
        lemma_list_off_mono(lists, i + 1, lists.len() as int);
        if i < k {
            lemma_list_off_mono(lists, i + 1, k);
        } else if i > k {
            lemma_list_off_mono(lists, k + 1, i);
        }
    }
    assert forall|i: int, j: int| 0 <= i < lists.len() && 0 <= j < lists[i].len() implies ws2[list_off(lists, i) + 4 + j]
        == #[trigger] lists[i][j] by {
        lemma_list_off_mono(lists, 0, i);
        lemma_list_off_mono(lists, i + 1, lists.len() as int);
        if i < k {
            lemma_list_off_mono(lists, i + 1, k);
        } else if i > k {
            lemma_list_off_mono(lists, k + 1, i);
        }
    }
}

/// Writing past the last list keeps the lists.
pub proof fn lemma_tail_write(ws: Seq<u16>, lists: Seq<Seq<u16>>, p: int, v: u16)
    requires
        laid_out(ws, lists),
        lists_end(lists) <= p < ws.len(),
    ensures
        laid_out(ws.update(p, v), lists),
{
    let ws2 = ws.update(p, v);
    assert forall|i: int| 0 <= i < lists.len() implies ws2[#[trigger] list_off(lists, i)] == lists[i].len() by {
        lemma_list_off_mono(lists, 0, i);
        lemma_list_off_mono(lists, i + 1, lists.len() as int);
    }
    assert forall|i: int, j: int| 0 <= i < lists.len() && 0 <= j < lists[i].len() implies ws2[list_off(lists, i) + 4 + j]
        == #[trigger] lists[i][j] by {
        lemma_list_off_mono(lists, 0, i);
        lemma_list_off_mono(lists, i + 1, lists.len() as int);
    }
}

/// Writing item `j` of list `k` replaces that item.
pub proof fn lemma_item_write(ws: Seq<u16>, lists: Seq<Seq<u16>>, k: int, j: int, v: u16)
    requires
        laid_out(ws, lists),
        0 <= k < lists.len(),
        0 <= j < lists[k].len(),
    ensures
        laid_out(ws.update(list_off(lists, k) + 4 + j, v), lists.update(k, lists[k].update(j, v))),
        lists_end(lists.update(k, lists[k].update(j, v))) == lists_end(lists),
        zero_from(ws, lists_end(lists)) ==> zero_from(ws.update(list_off(lists, k) + 4 + j, v), lists_end(lists)),
{
    let p = list_off(lists, k) + 4 + j;
    let ws2 = ws.update(p, v);
    let l2 = lists.update(k, lists[k].update(j, v));
    lemma_list_off_mono(lists, k + 1, lists.len() as int);
    lemma_list_off_mono(lists, 0, k);
    lemma_lists_update(lists, k, lists[k].update(j, v));
    assert forall|i: int| 0 <= i < l2.len() implies ws2[#[trigger] list_off(l2, i)] == l2[i].len() by {
        assert(list_off(l2, i) == list_off(lists, i));
        lemma_list_off_mono(lists, 0, i);
        lemma_list_off_mono(lists, i + 1, lists.len() as int);
        if i < k {
            lemma_list_off_mono(lists, i + 1, k);
        } else if i > k {
            lemma_list_off_mono(lists, k + 1, i);
        }
    }
    assert forall|i: int, q: int| 0 <= i < l2.len() && 0 <= q < l2[i].len() implies ws2[list_off(l2, i) + 4 + q]
        == #[trigger] l2[i][q] by {
        assert(list_off(l2, i) == list_off(lists, i));
        assert(lists[i][q] == ws[list_off(lists, i) + 4 + q]);
        lemma_list_off_mono(lists, 0, i);
        lemma_list_off_mono(lists, i + 1, lists.len() as int);
        if i < k {
            lemma_list_off_mono(lists, i + 1, k);
        } else if i > k {
            lemma_list_off_mono(lists, k + 1, i);
        }
    }
}

/// Appending an item to the last list: its length word grows and the item goes right after it.
pub proof fn lemma_last_append(ws: Seq<u16>, lists: Seq<Seq<u16>>, item: u16)
    requires
        laid_out(ws, lists),
        zero_from(ws, lists_end(lists)),
        lists.len() >= 1,
        lists_end(lists) < ws.len(),
        lists[lists.len() - 1].len() < u16::MAX,
    ensures
        ({
            let k = lists.len() - 1;
            let l2 = lists.update(k, lists[k].push(item));
            let ws2 = ws.update(list_off(lists, k), (lists[k].len() + 1) as u16).update(
                list_off(lists, k) + 4 + lists[k].len(),
                item,
            );
            &&& laid_out(ws2, l2)
            &&& zero_from(ws2, lists_end(l2))
            &&& lists_end(l2) == lists_end(lists) + 1
            &&& l2.len() == lists.len()
        }),
{
    let k = lists.len() - 1;
    let len = lists[k].len() as int;
    let off = list_off(lists, k);
    let l2 = lists.update(k, lists[k].push(item));
    let ws2 = ws.update(off, (len + 1) as u16).update(off + 4 + len, item);
    lemma_list_off_mono(lists, 0, k);
    lemma_list_off_same(l2, lists, k);
    assert forall|i: int| 0 <= i <= k implies #[trigger] list_off(l2, i) == list_off(lists, i) by {
        lemma_list_off_same(l2, lists, i);
    }
    assert(lists_end(lists) == off + 4 + len);
    assert(lists_end(l2) == off + 4 + len + 1);
    assert forall|i: int| 0 <= i < l2.len() implies ws2[#[trigger] list_off(l2, i)] == l2[i].len() by {
        assert(list_off(l2, i) == list_off(lists, i));
        lemma_list_off_mono(lists, 0, i);
        if i < k {
            lemma_list_off_mono(lists, i + 1, k);
            assert(l2[i] == lists[i]);
            assert(ws[list_off(lists, i)] == lists[i].len());
        } else {
            assert(l2[i].len() == len + 1);
        }
    }
    assert forall|i: int, q: int| 0 <= i < l2.len() && 0 <= q < l2[i].len() implies ws2[list_off(l2, i) + 4 + q]
        == #[trigger] l2[i][q] by {
        assert(list_off(l2, i) == list_off(lists, i));
        lemma_list_off_mono(lists, 0, i);
        if i < k {
            lemma_list_off_mono(lists, i + 1, k);
            assert(l2[i] == lists[i]);
            assert(lists[i][q] == ws[list_off(lists, i) + 4 + q]);
        } else if q < len {
            assert(l2[i][q] == lists[i][q]);
            assert(lists[i][q] == ws[list_off(lists, i) + 4 + q]);
        } else {
            assert(l2[i][q] == item);
        }
    }
    assert forall|i: int| lists_end(l2) <= i < ws2.len() implies #[trigger] ws2[i] == 0 by {
        assert(ws[i] == 0);
    }
}

/// Giving the empty last list one item: the item is the zero word after it.
pub proof fn lemma_last_resize(ws: Seq<u16>, lists: Seq<Seq<u16>>)
    requires
        laid_out(ws, lists),
        zero_from(ws, lists_end(lists)),
        lists.len() >= 1,
        lists_end(lists) < ws.len(),
        lists[lists.len() - 1].len() == 0,
    ensures
        ({
            let k = lists.len() - 1;
            let l2 = lists.update(k, seq![0u16]);
            let ws2 = ws.update(list_off(lists, k), 1u16);
            &&& laid_out(ws2, l2)
            &&& zero_from(ws2, lists_end(l2))
            &&& lists_end(l2) == lists_end(lists) + 1
        }),
{
    let k = lists.len() - 1;
    let off = list_off(lists, k);
    lemma_list_off_mono(lists, 0, k);
    lemma_last_append(ws, lists, 0u16);
    assert(lists[k].push(0u16) =~= seq![0u16]);
    assert(ws[off + 4] == 0);
    assert(ws.update(off, 1u16).update(off + 4, 0u16) =~= ws.update(off, 1u16));
}

/// Starting a new, empty list after the last one, linked after the list at `h0` and before the
/// one at offset 0.
pub proof fn lemma_push_list(ws: Seq<u16>, lists: Seq<Seq<u16>>, h0: int)
    requires
        laid_out(ws, lists),
        zero_from(ws, lists_end(lists)),
        lists_end(lists) + 4 <= ws.len(),
        lists.len() > 0 ==> h0 == list_off(lists, lists.len() - 1),
        lists.len() == 0 ==> h0 == 0,
    ensures
        ({
            let nh = lists_end(lists);
            let ws2 = ws.update(nh, 0u16).update(nh + 3, 0u16).update(nh + 1, h0 as u16).update(nh + 2, 0u16).update(
                h0 + 2,
                nh as u16,
            ).update(1, nh as u16);
            let l2 = lists.push(Seq::<u16>::empty());
            &&& laid_out(ws2, l2)
            &&& zero_from(ws2, lists_end(l2))
            &&& lists_end(l2) == nh + 4
            &&& list_off(l2, lists.len() as int) == nh
        }),
{
    let nh = lists_end(lists);
    let n = lists.len() as int;
    let l2 = lists.push(Seq::<u16>::empty());
    lemma_list_off_mono(lists, 0, n);
    lemma_lists_push(lists, Seq::<u16>::empty());
    let w1 = ws.update(nh, 0u16);
    let w2 = w1.update(nh + 3, 0u16);
    let w3 = w2.update(nh + 1, h0 as u16);
    let w4 = w3.update(nh + 2, 0u16);
    let w5 = w4.update(h0 + 2, nh as u16);
    let w6 = w5.update(1, nh as u16);
    if n > 0 {
        lemma_list_off_mono(lists, 1, n);
        lemma_list_off_mono(lists, n - 1, n);
        lemma_list_off_mono(lists, 0, n - 1);
    }
    if n == 0 {
        assert(laid_out(w6, l2));
    } else {
        lemma_tail_write(ws, lists, nh, 0u16);
        lemma_tail_write(w1, lists, nh + 3, 0u16);
        lemma_tail_write(w2, lists, nh + 1, h0 as u16);
        lemma_tail_write(w3, lists, nh + 2, 0u16);
        lemma_header_write(w4, lists, n - 1, 2, nh as u16);
        lemma_header_write(w5, lists, 0, 1, nh as u16);
        lemma_list_off_mono(lists, 1, n);
        assert(h0 + 4 <= nh);
        assert(w6[nh] == 0);
        assert forall|i: int| 0 <= i < l2.len() implies w6[#[trigger] list_off(l2, i)] == l2[i].len() by {
            if i < n {
                assert(list_off(l2, i) == list_off(lists, i));
            }
        }
        assert forall|i: int, q: int| 0 <= i < l2.len() && 0 <= q < l2[i].len() implies w6[list_off(l2, i) + 4 + q]
            == #[trigger] l2[i][q] by {
            assert(list_off(l2, i) == list_off(lists, i));
            assert(lists[i][q] == l2[i][q]);
        }
    }
    assert forall|i: int| nh + 4 <= i < w6.len() implies #[trigger] w6[i] == 0 by {
        if n > 0 {
            lemma_list_off_mono(lists, 1, n);
        }
    }
}


/// List `k` ends where list `k + 1` starts, and starts never go down.
pub proof fn lemma_list_off_mono(lists: Seq<Seq<u16>>, a: int, b: int)
    requires
        0 <= a <= b,
    ensures
        list_off(lists, a) + 4 * (b - a) <= list_off(lists, b),
    decreases b - a,
{
    if a < b {
        lemma_list_off_mono(lists, a, b - 1);
    }
}

/// The starts of the first `k` lists depend only on their lengths.
pub proof fn lemma_list_off_same(a: Seq<Seq<u16>>, b: Seq<Seq<u16>>, k: int)
    requires
        0 <= k,
        k <= a.len(),
        k <= b.len(),
        forall|i: int| 0 <= i < k ==> #[trigger] a[i].len() == b[i].len(),
    ensures
        list_off(a, k) == list_off(b, k),
    decreases k,
{
    if k > 0 {
        lemma_list_off_same(a, b, k - 1);
    }
}

} // verus!
