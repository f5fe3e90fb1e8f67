//! An insertion-ordered table from symbol to a non-empty, ordered list of items.

use vstd::prelude::*;

verus! {

/// One symbol and the items recorded under it, oldest first.
pub struct SymbolEntry<T> {
    pub symbol: String,
    pub items: Vec<T>,
}

/// Symbols in order of first appearance, each with its own items.
pub struct SymbolTable<T> {
    entries: Vec<SymbolEntry<T>>,
}

/// Abstract contents of a table: pairs of symbol and items.
pub type Rows<T> = Seq<(Seq<char>, Seq<T>)>;

/// No symbol occurs twice, and no symbol has an empty list.
pub open spec fn rows_wf<T>(s: Rows<T>) -> bool {
    &&& forall|i: int, j: int|
        0 <= i < s.len() && 0 <= j < s.len() && i != j ==> #[trigger] s[i].0 != #[trigger] s[j].0
    &&& forall|i: int| 0 <= i < s.len() ==> (#[trigger] s[i]).1.len() > 0
}

pub open spec fn has_symbol<T>(s: Rows<T>, k: Seq<char>) -> bool {
    exists|i: int| 0 <= i < s.len() && (#[trigger] s[i]).0 == k
}

/// The items under `k`; empty where `k` is absent.
pub open spec fn lookup<T>(s: Rows<T>, k: Seq<char>) -> Seq<T> {
    if has_symbol(s, k) {
        s[choose|i: int| 0 <= i < s.len() && (#[trigger] s[i]).0 == k].1
    } else {
        Seq::empty()
    }
}

/// Number of items under all symbols together.
pub open spec fn total_items<T>(s: Rows<T>) -> int
    decreases s.len(),
{
    if s.len() == 0 {
        0
    } else {
        total_items(s.drop_last()) + s.last().1.len()
    }
}

/// The items whose flag in `keep` is set, in their original order.
pub open spec fn kept<T>(items: Seq<T>, keep: Seq<bool>) -> Seq<T>
    decreases items.len(),
{
    if items.len() == 0 || keep.len() == 0 {
        Seq::empty()
    } else if keep.last() {
        kept(items.drop_last(), keep.drop_last()).push(items.last())
    } else {
        kept(items.drop_last(), keep.drop_last())
    }
}

pub proof fn lemma_lookup_at<T>(s: Rows<T>, i: int)
    requires
        rows_wf(s),
        0 <= i < s.len(),
    ensures
        has_symbol(s, s[i].0),
        lookup(s, s[i].0) == s[i].1,
{
    let k = s[i].0;
    assert(s[i].0 == k);
    let j = choose|j: int| 0 <= j < s.len() && (#[trigger] s[j]).0 == k;
    assert(j == i);
}

pub proof fn lemma_lookup_nonempty<T>(s: Rows<T>, k: Seq<char>)
    requires
        rows_wf(s),
    ensures
        has_symbol(s, k) <==> lookup(s, k).len() > 0,
{
    if has_symbol(s, k) {
        let j = choose|j: int| 0 <= j < s.len() && (#[trigger] s[j]).0 == k;
        lemma_lookup_at(s, j);
    }
}

pub proof fn lemma_total_update<T>(s: Rows<T>, i: int, e: (Seq<char>, Seq<T>))
    requires
        0 <= i < s.len(),
    ensures
        total_items(s.update(i, e)) == total_items(s) - s[i].1.len() + e.1.len(),
    decreases s.len(),
{
    let t = s.update(i, e);
    if i == s.len() - 1 {
        assert(t.drop_last() =~= s.drop_last());
    } else {
        assert(t.drop_last() =~= s.drop_last().update(i, e));
        lemma_total_update(s.drop_last(), i, e);
    }
}

pub proof fn lemma_kept_len_bound<T>(items: Seq<T>, keep: Seq<bool>)
    ensures
        kept(items, keep).len() <= items.len(),
        forall|x: T| kept(items, keep).contains(x) ==> items.contains(x),
    decreases items.len(),
{
    if items.len() > 0 && keep.len() > 0 {
        lemma_kept_len_bound(items.drop_last(), keep.drop_last());
        let r = kept(items.drop_last(), keep.drop_last());
        assert forall|x: T| kept(items, keep).contains(x) implies items.contains(x) by {
            if r.contains(x) {
                let j = choose|j: int| 0 <= j < r.len() && r[j] == x;
                assert(items.drop_last().contains(x));
                let m = choose|m: int| 0 <= m < items.drop_last().len() && items.drop_last()[m] == x;
                assert(items[m] == x);
            } else {
                assert(items[items.len() - 1] == x);
            }
        }
    }
}

pub proof fn lemma_remove_row<T>(s: Rows<T>, i: int)
    requires
        rows_wf(s),
        0 <= i < s.len(),
    ensures
        rows_wf(s.remove(i)),
        !has_symbol(s.remove(i), s[i].0),
        forall|k: Seq<char>| k != s[i].0 ==> lookup(s.remove(i), k) == lookup(s, k),
{
    let t = s.remove(i);
    assert forall|a: int, b: int|
        0 <= a < t.len() && 0 <= b < t.len() && a != b implies #[trigger] t[a].0 != #[trigger] t[b].0 by {
        let a0 = if a < i { a } else { a + 1 };
        let b0 = if b < i { b } else { b + 1 };
        assert(t[a] == s[a0]);
        assert(t[b] == s[b0]);
    }
    assert forall|a: int| 0 <= a < t.len() implies (#[trigger] t[a]).1.len() > 0 by {
        let a0 = if a < i { a } else { a + 1 };
        assert(t[a] == s[a0]);
    }
    if has_symbol(t, s[i].0) {
        let a = choose|a: int| 0 <= a < t.len() && (#[trigger] t[a]).0 == s[i].0;
        let a0 = if a < i { a } else { a + 1 };
        assert(t[a] == s[a0]);
    }
    assert forall|k: Seq<char>| k != s[i].0 implies lookup(t, k) == lookup(s, k) by {
        if has_symbol(s, k) {
            let j = choose|j: int| 0 <= j < s.len() && (#[trigger] s[j]).0 == k;
            lemma_lookup_at(s, j);
            let j1 = if j < i { j } else { j - 1 };
            assert(t[j1] == s[j]);
            lemma_lookup_at(t, j1);
        } else if has_symbol(t, k) {
            let a = choose|a: int| 0 <= a < t.len() && (#[trigger] t[a]).0 == k;
            let a0 = if a < i { a } else { a + 1 };
            assert(t[a] == s[a0]);
        }
    }
}

pub proof fn lemma_update_row<T>(s: Rows<T>, i: int, items: Seq<T>)
    requires
        rows_wf(s),
        0 <= i < s.len(),
        items.len() > 0,
    ensures
        rows_wf(s.update(i, (s[i].0, items))),
        lookup(s.update(i, (s[i].0, items)), s[i].0) == items,
        forall|k: Seq<char>|
            k != s[i].0 ==> lookup(s.update(i, (s[i].0, items)), k) == lookup(s, k),
{
    let t = s.update(i, (s[i].0, items));
    assert forall|a: int| 0 <= a < t.len() implies (#[trigger] t[a]).1.len() > 0 by {}
    assert(rows_wf(t));
    lemma_lookup_at(t, i);
    assert forall|k: Seq<char>| k != s[i].0 implies lookup(t, k) == lookup(s, k) by {
        if has_symbol(s, k) {
            let j = choose|j: int| 0 <= j < s.len() && (#[trigger] s[j]).0 == k;
            lemma_lookup_at(s, j);
            lemma_lookup_at(t, j);
        } else {
            assert(!has_symbol(t, k));
        }
    }
}

impl<T> SymbolEntry<T> {
    pub open spec fn row(self) -> (Seq<char>, Seq<T>) {
        (self.symbol@, self.items@)
    }
}

impl<T> View for SymbolTable<T> {
    type V = Rows<T>;

    closed spec fn view(&self) -> Rows<T> {
        self.entries@.map_values(|e: SymbolEntry<T>| e.row())
    }
}

impl<T> SymbolTable<T> {
    pub open spec fn wf(&self) -> bool {
        rows_wf(self@)
    }

    pub fn new() -> (r: SymbolTable<T>)
        ensures
            r@ == Seq::<(Seq<char>, Seq<T>)>::empty(),
            r.wf(),
    {
        let r = SymbolTable { entries: Vec::new() };
        assert(r@ =~= Seq::<(Seq<char>, Seq<T>)>::empty());
        r
    }

    pub fn len(&self) -> (r: usize)
        ensures
            r == self@.len(),
    {
        self.entries.len()
    }

    /// Position of `symbol`, if present.
    pub fn find(&self, symbol: &String) -> (r: Option<usize>)
        requires
            self.wf(),
        ensures
            r matches Some(i) ==> i < self@.len() && self@[i as int].0 == symbol@,
            r is None <==> !has_symbol(self@, symbol@),
    {
        let mut i: usize = 0;
        while i < self.entries.len()
            invariant
                i <= self.entries.len(),
                self@.len() == self.entries.len(),
                forall|j: int| 0 <= j < i ==> (#[trigger] self@[j]).0 != symbol@,
            decreases self.entries.len() - i,
        {
            if self.entries[i].symbol == *symbol {
                assert(self@[i as int].0 == symbol@);
                return Some(i);
            }
            i += 1;
        }
        None
    }

    /// Symbol at position `i`.
    pub fn symbol_at(&self, i: usize) -> (r: &String)
        requires
            i < self@.len(),
        ensures
            r@ == self@[i as int].0,
    {
        &self.entries[i].symbol
    }

    /// Items at position `i`.
    pub fn items_at(&self, i: usize) -> (r: &Vec<T>)
        requires
            i < self@.len(),
        ensures
            r@ == self@[i as int].1,
    {
        &self.entries[i].items
    }

    /// Appends `item` to the items under `symbol`; a new symbol goes last.
    pub fn push(&mut self, symbol: String, item: T)
        requires
            old(self).wf(),
        ensures
            final(self).wf(),
            lookup(final(self)@, symbol@) == lookup(old(self)@, symbol@).push(item),
            forall|k: Seq<char>|
                k != symbol@ ==> lookup(final(self)@, k) == lookup(old(self)@, k),
            has_symbol(old(self)@, symbol@) ==> final(self)@.len() == old(self)@.len(),
            !has_symbol(old(self)@, symbol@) ==> final(self)@ == old(self)@.push(
                (symbol@, seq![item]),
            ),
            total_items(final(self)@) == total_items(old(self)@) + 1,
    {
        let ghost s0 = self@;
        match self.find(&symbol) {
            Some(i) => {
                let mut e = self.entries.remove(i);
                e.items.push(item);
                self.entries.insert(i, e);
                proof {
                    let s1 = self@;
                    assert(s1 =~= s0.update(i as int, (symbol@, s0[i as int].1.push(item))));
                    assert forall|a: int| 0 <= a < s1.len() implies (#[trigger] s1[a]).1.len()
                        > 0 by {}
                    assert(rows_wf(s1));
                    lemma_lookup_at(s0, i as int);
                    lemma_lookup_at(s1, i as int);
                    assert forall|k: Seq<char>| k != symbol@ implies lookup(s1, k) == lookup(
                        s0,
                        k,
                    ) by {
                        if has_symbol(s0, k) {
                            let j = choose|j: int| 0 <= j < s0.len() && (#[trigger] s0[j]).0 == k;
                            lemma_lookup_at(s0, j);
                            lemma_lookup_at(s1, j);
                        } else {
                            assert(!has_symbol(s1, k));
                        }
                    }
                    lemma_total_update(s0, i as int, (symbol@, s0[i as int].1.push(item)));
                }
            },
            None => {
                let ghost k = symbol@;
                let mut items = Vec::new();
                items.push(item);
                self.entries.push(SymbolEntry { symbol, items });
                proof {
                    let s1 = self@;
                    assert(s1 =~= s0.push((k, seq![item])));
                    assert(rows_wf(s1));
                    lemma_lookup_at(s1, s0.len() as int);
                    assert(lookup(s0, k) =~= Seq::<T>::empty());
                    assert forall|k2: Seq<char>| k2 != k implies lookup(s1, k2) == lookup(
                        s0,
                        k2,
                    ) by {
                        if has_symbol(s0, k2) {
                            let j = choose|j: int| 0 <= j < s0.len() && (#[trigger] s0[j]).0 == k2;
                            lemma_lookup_at(s0, j);
                            lemma_lookup_at(s1, j);
                        } else {
                            if has_symbol(s1, k2) {
                                let j = choose|j: int|
                                    0 <= j < s1.len() && (#[trigger] s1[j]).0 == k2;
                                assert(j < s0.len());
                                assert(s0[j].0 == k2);
                            }
                        }
                    }
                    assert(s1.drop_last() =~= s0);
                }
            },
        }
    }

    /// Removes `symbol` and hands back its items.
    pub fn remove_symbol(&mut self, symbol: &String) -> (r: Option<Vec<T>>)
        requires
            old(self).wf(),
        ensures
            final(self).wf(),
            r is Some <==> has_symbol(old(self)@, symbol@),
            r matches Some(v) ==> v@ == lookup(old(self)@, symbol@),
            !has_symbol(final(self)@, symbol@),
            lookup(final(self)@, symbol@) == Seq::<T>::empty(),
            forall|k: Seq<char>|
                k != symbol@ ==> lookup(final(self)@, k) == lookup(old(self)@, k),
    {
        let ghost s0 = self@;
        match self.find(symbol) {
            Some(i) => {
                let e = self.entries.remove(i);
                proof {
                    assert(self@ =~= s0.remove(i as int));
                    lemma_lookup_at(s0, i as int);
                    lemma_remove_row(s0, i as int);
                }
                Some(e.items)
            },
            None => None,
        }
    }

    /// Keeps, under `symbol`, the items whose flag in `keep` is set; drops
    /// the symbol when none is left.
    pub fn retain_marked(&mut self, symbol: &String, keep: &Vec<bool>)
        requires
            old(self).wf(),
            keep@.len() == lookup(old(self)@, symbol@).len(),
        ensures
            final(self).wf(),
            lookup(final(self)@, symbol@) == kept(lookup(old(self)@, symbol@), keep@),
            forall|k: Seq<char>|
                k != symbol@ ==> lookup(final(self)@, k) == lookup(old(self)@, k),
    {
        let ghost s0 = self@;
        match self.find(symbol) {
            Some(i) => {
                let mut e = self.entries.remove(i);
                let ghost orig = e.items@;
                assert(e.symbol@ == s0[i as int].0);
                assert(orig.len() == e.items.len());
                proof {
                    lemma_lookup_at(s0, i as int);
                }
                let mut out: Vec<T> = Vec::new();
                let mut n: usize = 0;
                while e.items.len() > 0
                    invariant
                        n <= orig.len(),
                        keep@.len() == orig.len(),
                        e.items@ == orig.skip(n as int),
                        e.items.len() + n == orig.len(),
                        orig.len() <= usize::MAX,
                        i < s0.len(),
                        e.symbol@ == s0[i as int].0,
                        out@ == kept(orig.take(n as int), keep@.take(n as int)),
                    decreases e.items.len(),
                {
                    let x = e.items.remove(0);
                    proof {
                        let a = orig.take(n as int + 1);
                        let b = keep@.take(n as int + 1);
                        assert(a.drop_last() =~= orig.take(n as int));
                        assert(b.drop_last() =~= keep@.take(n as int));
                        assert(a.last() == x);
                    }
                    if keep[n] {
                        out.push(x);
                    }
                    n += 1;
                    assert(e.items@ =~= orig.skip(n as int));
                }
                assert(orig.take(n as int) =~= orig);
                assert(keep@.take(n as int) =~= keep@);
                proof {
                    lemma_remove_row(s0, i as int);
                }
                if out.len() > 0 {
                    let ghost o = out@;
                    e.items = out;
                    self.entries.insert(i, e);
                    proof {
                        assert(self@ =~= s0.update(i as int, (s0[i as int].0, o)));
                        lemma_update_row(s0, i as int, o);
                    }
                } else {
                    proof {
                        assert(self@ =~= s0.remove(i as int));
                        lemma_lookup_nonempty(self@, symbol@);
                    }
                }
            },
            None => {
                proof {
                    lemma_lookup_nonempty(s0, symbol@);
                    assert(lookup(s0, symbol@) =~= Seq::<T>::empty());
                }
            },
        }
    }
}

} // verus!
