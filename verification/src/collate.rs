//! The order of texts: by their bytes.

use vstd::prelude::*;

verus! {

/// Whether `a` stands before `b`, looking at the bytes from `i` on.
pub open spec fn before_from(a: Seq<u8>, b: Seq<u8>, i: int) -> bool
    decreases b.len() - i,
{
    if i >= b.len() {
        false
    } else if i >= a.len() {
        true
    } else if a[i] != b[i] {
        a[i] < b[i]
    } else {
        before_from(a, b, i + 1)
    }
}

/// Whether `a` stands before `b`: at the first byte in which they differ `a` has the
/// smaller one, or ends.
pub open spec fn stands_before(a: Seq<u8>, b: Seq<u8>) -> bool {
    before_from(a, b, 0)
}

proof fn lemma_before_transitive(a: Seq<u8>, b: Seq<u8>, c: Seq<u8>, i: int)
    requires
        before_from(a, b, i),
        before_from(b, c, i),
    ensures
        before_from(a, c, i),
    decreases c.len() - i,
{
    if i < a.len() && a[i] == b[i] && b[i] == c[i] {
        lemma_before_transitive(a, b, c, i + 1);
    }
}

proof fn lemma_before_irreflexive(a: Seq<u8>, i: int)
    ensures
        !before_from(a, a, i),
    decreases a.len() - i,
{
    if i < a.len() {
        lemma_before_irreflexive(a, i + 1);
    }
}

proof fn lemma_before_total(a: Seq<u8>, b: Seq<u8>, i: int)
    requires
        0 <= i,
        !before_from(a, b, i),
        !before_from(b, a, i),
        i <= a.len(),
        i <= b.len(),
    ensures
        a.len() == b.len(),
        forall|k: int| i <= k < a.len() ==> a[k] == b[k],
    decreases a.len() - i,
{
    if i < a.len() && i < b.len() {
        lemma_before_total(a, b, i + 1);
    }
}

/// The order of texts is a strict one, in which any two different texts stand.
pub proof fn law_text_order(a: Seq<u8>, b: Seq<u8>, c: Seq<u8>)
    ensures
        !stands_before(a, a),
        stands_before(a, b) && stands_before(b, c) ==> stands_before(a, c),
        a == b || stands_before(a, b) || stands_before(b, a),
{
    lemma_before_irreflexive(a, 0);
    if stands_before(a, b) && stands_before(b, c) {
        lemma_before_transitive(a, b, c, 0);
    }
    if !stands_before(a, b) && !stands_before(b, a) {
        lemma_before_total(a, b, 0);
        assert(a =~= b);
    }
}

/// Whether `a` stands before `b`.
pub fn is_before(a: &[u8], b: &[u8]) -> (yes: bool)
    ensures
        yes == stands_before(a@, b@),
{
    let mut i: usize = 0;
    while i < a.len() && i < b.len()
        invariant
            i <= a@.len(),
            i <= b@.len(),
            stands_before(a@, b@) == before_from(a@, b@, i as int),
        decreases b@.len() - i,
    {
        if a[i] != b[i] {
            return a[i] < b[i];
        }
        i += 1;
    }
    i < b.len()
}

/// How many of the first `n` texts stand before `text`.
pub open spec fn count_ahead(texts: Seq<Seq<u8>>, text: Seq<u8>, n: int) -> nat
    decreases n,
{
    if n <= 0 {
        0
    } else {
        count_ahead(texts, text, n - 1) + (if stands_before(texts[n - 1], text) {
            1nat
        } else {
            0nat
        })
    }
}

/// The place of the `i`th text: how many of the texts stand before it.
pub open spec fn place(texts: Seq<Seq<u8>>, i: int) -> nat {
    count_ahead(texts, texts[i], texts.len() as int)
}

proof fn lemma_count_ahead(texts: Seq<Seq<u8>>, i: int, j: int, n: int)
    requires
        0 <= i < texts.len(),
        0 <= j < texts.len(),
        stands_before(texts[i], texts[j]),
    ensures
        count_ahead(texts, texts[i], n) <= count_ahead(texts, texts[j], n),
        i < n ==> count_ahead(texts, texts[i], n) < count_ahead(texts, texts[j], n),
    decreases n,
{
    if n > 0 {
        lemma_count_ahead(texts, i, j, n - 1);
        law_text_order(texts[n - 1], texts[i], texts[j]);
        law_text_order(texts[i], texts[i], texts[i]);
    }
}

/// Texts stand in the order of their places.
pub proof fn law_place_orders(texts: Seq<Seq<u8>>, i: int, j: int)
    requires
        0 <= i < texts.len(),
        0 <= j < texts.len(),
    ensures
        place(texts, i) < place(texts, j) <==> stands_before(texts[i], texts[j]),
        place(texts, i) == place(texts, j) <==> texts[i] == texts[j],
{
    let n = texts.len() as int;
    law_text_order(texts[i], texts[j], texts[i]);
    if stands_before(texts[i], texts[j]) {
        lemma_count_ahead(texts, i, j, n);
    }
    if stands_before(texts[j], texts[i]) {
        lemma_count_ahead(texts, j, i, n);
    }
}

proof fn lemma_before_skips(a: Seq<u8>, b: Seq<u8>, i: int, k: int)
    requires
        0 <= i <= k <= a.len(),
        k <= b.len(),
        forall|j: int| i <= j < k ==> #[trigger] a[j] == b[j],
    ensures
        before_from(a, b, i) == before_from(a, b, k),
    decreases k - i,
{
    if i < k {
        assert(a[i] == b[i]);
        lemma_before_skips(a, b, i + 1, k);
    }
}

/// Of two texts that agree in their first `k` bytes the next byte decides; a text
/// stands before every longer one that begins with it.
pub proof fn law_first_difference(a: Seq<u8>, b: Seq<u8>, k: int)
    requires
        0 <= k <= a.len(),
        k <= b.len(),
        a.take(k) == b.take(k),
    ensures
        k < a.len() && k < b.len() && a[k] != b[k] ==> stands_before(a, b) == (a[k] < b[k]),
        k == a.len() ==> stands_before(a, b) == (a.len() < b.len()),
        k == b.len() ==> !stands_before(a, b),
{
    assert forall|j: int| 0 <= j < k implies #[trigger] a[j] == b[j] by {
        assert(a.take(k)[j] == a[j] && b.take(k)[j] == b[j]);
    }
    lemma_before_skips(a, b, 0, k);
}

} // verus!
