//! Canonical codec: a deterministic binary encoding for structured payloads.
//!
//! A payload is a tree of nulls, booleans, integers, strings, arrays and
//! objects. Before encoding, every object in the tree is normalized by
//! sorting its keys in ascending lexicographic order, recursing into nested
//! objects and array elements. Two payloads that differ only in object key
//! insertion order therefore encode to byte-identical output.
use vstd::prelude::*;

verus! {

broadcast use vstd::std_specs::vec::group_vec_axioms;

/// An executable structured payload: the generic tree carried by mesh
/// envelopes. Objects keep their entries in insertion order; the codec
/// normalizes key order, it does not require it.
pub enum CanonValue {
    Null,
    Bool(bool),
    Int(i64),
    Str(String),
    Arr(Vec<CanonValue>),
    Obj(Vec<(String, CanonValue)>),
}

/// The structural view of a `CanonValue`: the same tree over mathematical
/// sequences, with object entry order preserved.
pub enum SpecTree {
    Null,
    Bool(bool),
    Int(int),
    Str(Seq<char>),
    Arr(Seq<SpecTree>),
    Obj(Seq<(Seq<char>, SpecTree)>),
}

/// The semantic reading of a tree: objects become finite maps, so two trees
/// that differ only in object entry order have equal models.
pub enum SpecVal {
    Null,
    Bool(bool),
    Int(int),
    Str(Seq<char>),
    Arr(Seq<SpecVal>),
    Obj(Map<Seq<char>, SpecVal>),
}

/// Whether some entry of `entries` has key `k`.
pub open spec fn obj_has_key(entries: Seq<(Seq<char>, SpecTree)>, k: Seq<char>) -> bool {
    exists|i: int| 0 <= i < entries.len() && entries[i].0 == k
}

/// An index of the entry with key `k` (meaningful when `obj_has_key` holds).
pub open spec fn obj_index_of(entries: Seq<(Seq<char>, SpecTree)>, k: Seq<char>) -> int {
    choose|i: int| 0 <= i < entries.len() && entries[i].0 == k
}

impl SpecTree {
    /// The semantic model of a tree: forget object entry order.
    pub open spec fn model(self) -> SpecVal
        decreases self,
    {
        match self {
            SpecTree::Null => SpecVal::Null,
            SpecTree::Bool(b) => SpecVal::Bool(b),
            SpecTree::Int(i) => SpecVal::Int(i),
            SpecTree::Str(s) => SpecVal::Str(s),
            SpecTree::Arr(items) => SpecVal::Arr(
                Seq::new(
                    items.len(),
                    |i: int|
                        if 0 <= i < items.len() {
                            items[i].model()
                        } else {
                            SpecVal::Null
                        },
                ),
            ),
            SpecTree::Obj(entries) => SpecVal::Obj(
                Map::new(
                    |k: Seq<char>| obj_has_key(entries, k),
                    |k: Seq<char>|
                        if obj_has_key(entries, k) {
                            entries[obj_index_of(entries, k)].1.model()
                        } else {
                            SpecVal::Null
                        },
                ),
            ),
        }
    }

    /// Well-formed: every object has pairwise distinct keys, and every
    /// integer fits the signed 64-bit range carried by the executable tree.
    pub open spec fn wf(self) -> bool
        decreases self,
    {
        match self {
            SpecTree::Null => true,
            SpecTree::Bool(_) => true,
            SpecTree::Int(i) => i64::MIN <= i <= i64::MAX,
            SpecTree::Str(_) => true,
            SpecTree::Arr(items) => forall|i: int| 0 <= i < items.len() ==> items[i].wf(),
            SpecTree::Obj(entries) => (forall|i: int, j: int|
                0 <= i < j < entries.len() ==> entries[i].0 != entries[j].0) && (forall|i: int|
                0 <= i < entries.len() ==> entries[i].1.wf()),
        }
    }

    /// Canonical: every object's keys are in strictly ascending lexicographic
    /// order, at every depth.
    pub open spec fn keys_sorted(self) -> bool
        decreases self,
    {
        match self {
            SpecTree::Null => true,
            SpecTree::Bool(_) => true,
            SpecTree::Int(_) => true,
            SpecTree::Str(_) => true,
            SpecTree::Arr(items) => forall|i: int| 0 <= i < items.len() ==> items[i].keys_sorted(),
            SpecTree::Obj(entries) => (forall|i: int, j: int|
                0 <= i < j < entries.len() ==> lex_lt(
                    #[trigger] entries[i].0,
                    #[trigger] entries[j].0,
                )) && (forall|i: int| 0 <= i < entries.len() ==> entries[i].1.keys_sorted()),
        }
    }
}

impl CanonValue {
    /// The structural view of this value.
    pub open spec fn tree(self) -> SpecTree
        decreases self,
    {
        match self {
            CanonValue::Null => SpecTree::Null,
            CanonValue::Bool(b) => SpecTree::Bool(b),
            CanonValue::Int(i) => SpecTree::Int(i as int),
            CanonValue::Str(s) => SpecTree::Str(s@),
            CanonValue::Arr(items) => SpecTree::Arr(
                Seq::new(
                    items@.len(),
                    |i: int|
                        if 0 <= i < items@.len() {
                            items@[i].tree()
                        } else {
                            SpecTree::Null
                        },
                ),
            ),
            CanonValue::Obj(entries) => SpecTree::Obj(
                Seq::new(
                    entries@.len(),
                    |i: int|
                        if 0 <= i < entries@.len() {
                            (entries@[i].0@, entries@[i].1.tree())
                        } else {
                            (Seq::<char>::empty(), SpecTree::Null)
                        },
                ),
            ),
        }
    }
}

impl View for CanonValue {
    type V = SpecTree;

    open spec fn view(&self) -> SpecTree {
        self.tree()
    }
}

/// Strict lexicographic order on character sequences, by scalar value.
/// This is the order in which object keys are normalized.
pub open spec fn lex_lt(a: Seq<char>, b: Seq<char>) -> bool
    decreases a.len(),
{
    if b.len() == 0 {
        false
    } else if a.len() == 0 {
        true
    } else if (a[0] as u32) < (b[0] as u32) {
        true
    } else if a[0] == b[0] {
        lex_lt(a.subrange(1, a.len() as int), b.subrange(1, b.len() as int))
    } else {
        false
    }
}

/// The order is irreflexive.
pub proof fn lemma_lex_lt_irrefl(a: Seq<char>)
    ensures
        !lex_lt(a, a),
    decreases a.len(),
{
    if a.len() > 0 {
        lemma_lex_lt_irrefl(a.subrange(1, a.len() as int));
    }
}

/// The order is connected: of two distinct sequences one is strictly below
/// the other, and never both.
pub proof fn lemma_lex_lt_connected(a: Seq<char>, b: Seq<char>)
    ensures
        lex_lt(a, b) || lex_lt(b, a) || a == b,
        !(lex_lt(a, b) && lex_lt(b, a)),
    decreases a.len(),
{
    if b.len() == 0 || a.len() == 0 {
        if a.len() == 0 && b.len() == 0 {
            assert(a =~= b);
        }
    } else if a[0] == b[0] {
        let at = a.subrange(1, a.len() as int);
        let bt = b.subrange(1, b.len() as int);
        lemma_lex_lt_connected(at, bt);
        if at == bt {
            assert forall|i: int| 0 <= i < a.len() implies a[i] == b[i] by {
                if i >= 1 {
                    assert(a[i] == at[i - 1]);
                    assert(b[i] == bt[i - 1]);
                }
            }
            assert(a =~= b);
        }
        if a == b {
            assert(at =~= bt);
        }
    } else {
        // distinct first characters: one scalar value is strictly below the other
        vstd::utf8::char_u32_cast(a[0], a[0] as u32);
        vstd::utf8::char_u32_cast(b[0], b[0] as u32);
        assert((a[0] as u32) != (b[0] as u32));
    }
}

/// The keys of an object's entries, in entry order.
pub open spec fn entry_keys(entries: Seq<(Seq<char>, SpecTree)>) -> Seq<Seq<char>> {
    Seq::new(entries.len(), |i: int| entries[i].0)
}

/// Strictly ascending lexicographic order on a sequence of keys.
pub open spec fn strict_sorted(ks: Seq<Seq<char>>) -> bool {
    forall|i: int, j: int| 0 <= i < j < ks.len() ==> lex_lt(#[trigger] ks[i], #[trigger] ks[j])
}

/// Two strictly sorted key sequences with the same members are equal.
pub proof fn lemma_sorted_keys_equal(ka: Seq<Seq<char>>, kb: Seq<Seq<char>>)
    requires
        strict_sorted(ka),
        strict_sorted(kb),
        forall|k: Seq<char>| ka.contains(k) <==> kb.contains(k),
    ensures
        ka == kb,
    decreases ka.len(),
{
    if ka.len() == 0 {
        if kb.len() > 0 {
            assert(kb.contains(kb[0]));
            assert(ka.contains(kb[0]));
        }
        assert(ka =~= kb);
    } else {
        assert(ka.contains(ka[0]));
        assert(kb.contains(ka[0]));
        let j = choose|j: int| 0 <= j < kb.len() && kb[j] == ka[0];
        assert(kb.contains(kb[0]));
        assert(ka.contains(kb[0]));
        let i = choose|i: int| 0 <= i < ka.len() && ka[i] == kb[0];
        lemma_lex_lt_connected(ka[0], kb[0]);
        if ka[0] != kb[0] {
            assert(lex_lt(kb[0], kb[j]));
            assert(lex_lt(ka[0], ka[i]));
            assert(false);
        }
        let ta = ka.subrange(1, ka.len() as int);
        let tb = kb.subrange(1, kb.len() as int);
        assert forall|k: Seq<char>| ta.contains(k) implies tb.contains(k) by {
            let m = choose|m: int| 0 <= m < ta.len() && ta[m] == k;
            assert(ka[m + 1] == k);
            assert(ka.contains(k));
            assert(kb.contains(k));
            let n = choose|n: int| 0 <= n < kb.len() && kb[n] == k;
            assert(lex_lt(ka[0], k));
            lemma_lex_lt_irrefl(k);
            assert(n != 0);
            assert(tb[n - 1] == k);
            assert(tb.contains(k));
        }
        assert forall|k: Seq<char>| tb.contains(k) implies ta.contains(k) by {
            let m = choose|m: int| 0 <= m < tb.len() && tb[m] == k;
            assert(kb[m + 1] == k);
            assert(kb.contains(k));
            assert(ka.contains(k));
            let n = choose|n: int| 0 <= n < ka.len() && ka[n] == k;
            assert(lex_lt(kb[0], k));
            lemma_lex_lt_irrefl(k);
            assert(n != 0);
            assert(ta[n - 1] == k);
            assert(ta.contains(k));
        }
        lemma_sorted_keys_equal(ta, tb);
        assert forall|m: int| 0 <= m < ka.len() implies ka[m] == kb[m] by {
            if m >= 1 {
                assert(ka[m] == ta[m - 1]);
                assert(kb[m] == tb[m - 1]);
            }
        }
        assert(ka =~= kb);
    }
}

/// A well-formed tree in canonical key order is determined by its model:
/// sorting object keys yields one unique representative per semantic value.
pub proof fn lemma_canonical_unique(a: SpecTree, b: SpecTree)
    requires
        a.wf(),
        b.wf(),
        a.keys_sorted(),
        b.keys_sorted(),
        a.model() == b.model(),
    ensures
        a == b,
    decreases a,
{
    match a {
        SpecTree::Null => {}
        SpecTree::Bool(_) => {}
        SpecTree::Int(_) => {}
        SpecTree::Str(_) => {}
        SpecTree::Arr(ia) => {
            match b {
                SpecTree::Arr(ib) => {
                    assert(ia.len() == ib.len()) by {
                        assert(a.model()->Arr_0.len() == ia.len());
                        assert(b.model()->Arr_0.len() == ib.len());
                    }
                    assert forall|i: int| 0 <= i < ia.len() implies ia[i] == ib[i] by {
                        assert(a.model()->Arr_0[i] == ia[i].model());
                        assert(b.model()->Arr_0[i] == ib[i].model());
                        lemma_canonical_unique(ia[i], ib[i]);
                    }
                    assert(ia =~= ib);
                }
                _ => {
                    assert(false);
                }
            }
        }
        SpecTree::Obj(ea) => {
            match b {
                SpecTree::Obj(eb) => {
                    let ma = a.model()->Obj_0;
                    let mb = b.model()->Obj_0;
                    let ka = entry_keys(ea);
                    let kb = entry_keys(eb);
                    assert forall|k: Seq<char>| ka.contains(k) <==> kb.contains(k) by {
                        assert(ka.contains(k) == obj_has_key(ea, k)) by {
                            if ka.contains(k) {
                                let m = choose|m: int| 0 <= m < ka.len() && ka[m] == k;
                                assert(ea[m].0 == k);
                            }
                            if obj_has_key(ea, k) {
                                let m = choose|m: int| 0 <= m < ea.len() && ea[m].0 == k;
                                assert(ka[m] == k);
                            }
                        }
                        assert(kb.contains(k) == obj_has_key(eb, k)) by {
                            if kb.contains(k) {
                                let m = choose|m: int| 0 <= m < kb.len() && kb[m] == k;
                                assert(eb[m].0 == k);
                            }
                            if obj_has_key(eb, k) {
                                let m = choose|m: int| 0 <= m < eb.len() && eb[m].0 == k;
                                assert(kb[m] == k);
                            }
                        }
                        assert(ma.dom().contains(k) == obj_has_key(ea, k));
                        assert(mb.dom().contains(k) == obj_has_key(eb, k));
                    }
                    lemma_sorted_keys_equal(ka, kb);
                    assert(ea.len() == eb.len());
                    assert forall|i: int| 0 <= i < ea.len() implies ea[i] == eb[i] by {
                        let k = ea[i].0;
                        assert(ka[i] == k);
                        assert(kb[i] == k);
                        assert(eb[i].0 == k);
                        assert(obj_has_key(ea, k));
                        assert(obj_has_key(eb, k));
                        let ii = obj_index_of(ea, k);
                        assert(0 <= ii < ea.len() && ea[ii].0 == k);
                        assert(ii == i);
                        let jj = obj_index_of(eb, k);
                        assert(0 <= jj < eb.len() && eb[jj].0 == k);
                        assert(jj == i);
                        assert(ma[k] == ea[i].1.model());
                        assert(mb[k] == eb[i].1.model());
                        lemma_canonical_unique(ea[i].1, eb[i].1);
                        assert(ea[i].1 == eb[i].1);
                    }
                    assert(ea =~= eb);
                }
                _ => {
                    assert(false);
                }
            }
        }
    }
}

/// The canonical representative of a semantic value: the well-formed tree in
/// sorted key order with that model. By `lemma_canonical_unique` there is at
/// most one such tree.
pub open spec fn canonical_tree(m: SpecVal) -> SpecTree {
    choose|t: SpecTree| t.wf() && t.keys_sorted() && t.model() == m
}

/// The order is transitive.
pub proof fn lemma_lex_lt_trans(a: Seq<char>, b: Seq<char>, c: Seq<char>)
    requires
        lex_lt(a, b),
        lex_lt(b, c),
    ensures
        lex_lt(a, c),
    decreases a.len(),
{
    if a.len() == 0 {
        assert(c.len() > 0);
    } else {
        assert(b.len() > 0 && c.len() > 0);
        if a[0] == b[0] && b[0] == c[0] {
            lemma_lex_lt_trans(
                a.subrange(1, a.len() as int),
                b.subrange(1, b.len() as int),
                c.subrange(1, c.len() as int),
            );
        }
    }
}

/// Pairwise-distinct object keys.
pub open spec fn unique_keys(entries: Seq<(Seq<char>, SpecTree)>) -> bool {
    forall|i: int, j: int|
        0 <= i < j < entries.len() ==> (#[trigger] entries[i]).0 != (#[trigger] entries[j]).0
}

/// The structural views of a sequence of executable object entries.
pub open spec fn entries_tree(s: Seq<(String, CanonValue)>) -> Seq<(Seq<char>, SpecTree)> {
    Seq::new(s.len(), |i: int| (s[i].0@, s[i].1.tree()))
}

/// Objects with pairwise-distinct keys whose entries are drawn from each
/// other have equal models: entry order does not matter semantically.
proof fn lemma_obj_model_congruence(ea: Seq<(Seq<char>, SpecTree)>, eb: Seq<(Seq<char>, SpecTree)>)
    requires
        unique_keys(ea),
        unique_keys(eb),
        forall|i: int| 0 <= i < ea.len() ==> eb.contains(#[trigger] ea[i]),
        forall|i: int| 0 <= i < eb.len() ==> ea.contains(#[trigger] eb[i]),
    ensures
        SpecTree::Obj(ea).model() == SpecTree::Obj(eb).model(),
{
    let ma = SpecTree::Obj(ea).model()->Obj_0;
    let mb = SpecTree::Obj(eb).model()->Obj_0;
    assert forall|k: Seq<char>| obj_has_key(ea, k) implies obj_has_key(eb, k) by {
        let i = choose|i: int| 0 <= i < ea.len() && ea[i].0 == k;
        assert(eb.contains(ea[i]));
        let j = choose|j: int| 0 <= j < eb.len() && eb[j] == ea[i];
        assert(eb[j].0 == k);
    }
    assert forall|k: Seq<char>| obj_has_key(eb, k) implies obj_has_key(ea, k) by {
        let i = choose|i: int| 0 <= i < eb.len() && eb[i].0 == k;
        assert(ea.contains(eb[i]));
        let j = choose|j: int| 0 <= j < ea.len() && ea[j] == eb[i];
        assert(ea[j].0 == k);
    }
    assert forall|k: Seq<char>| #[trigger] ma.dom().contains(k) implies ma[k] == mb[k] by {
        assert(obj_has_key(ea, k));
        assert(obj_has_key(eb, k));
        let ii = obj_index_of(ea, k);
        assert(0 <= ii < ea.len() && ea[ii].0 == k);
        assert(eb.contains(ea[ii]));
        let j = choose|j: int| 0 <= j < eb.len() && eb[j] == ea[ii];
        let jj = obj_index_of(eb, k);
        assert(0 <= jj < eb.len() && eb[jj].0 == k);
        assert(jj == j);
        assert(ma[k] == ea[ii].1.model());
        assert(mb[k] == eb[jj].1.model());
    }
    assert(ma =~= mb);
}

/// Objects with the same keys in the same order, pairwise distinct, and
/// semantically equal values at each position have equal models.
proof fn lemma_obj_model_pointwise(ea: Seq<(Seq<char>, SpecTree)>, eb: Seq<(Seq<char>, SpecTree)>)
    requires
        unique_keys(ea),
        ea.len() == eb.len(),
        forall|i: int| 0 <= i < ea.len() ==> (#[trigger] ea[i]).0 == (#[trigger] eb[i]).0,
        forall|i: int| 0 <= i < ea.len() ==> (#[trigger] ea[i]).1.model() == (#[trigger] eb[i]).1.model(),
    ensures
        SpecTree::Obj(ea).model() == SpecTree::Obj(eb).model(),
{
    let ma = SpecTree::Obj(ea).model()->Obj_0;
    let mb = SpecTree::Obj(eb).model()->Obj_0;
    assert forall|k: Seq<char>| obj_has_key(ea, k) <==> obj_has_key(eb, k) by {
        if obj_has_key(ea, k) {
            let i = choose|i: int| 0 <= i < ea.len() && ea[i].0 == k;
            assert(eb[i].0 == k);
        }
        if obj_has_key(eb, k) {
            let i = choose|i: int| 0 <= i < eb.len() && eb[i].0 == k;
            assert(ea[i].0 == k);
        }
    }
    assert forall|k: Seq<char>| #[trigger] ma.dom().contains(k) implies ma[k] == mb[k] by {
        assert(obj_has_key(ea, k));
        assert(obj_has_key(eb, k));
        let ii = obj_index_of(ea, k);
        assert(0 <= ii < ea.len() && ea[ii].0 == k);
        let jj = obj_index_of(eb, k);
        assert(0 <= jj < eb.len() && eb[jj].0 == k);
        assert(ea[jj].0 == k);
        assert(jj == ii);
        assert(ma[k] == ea[ii].1.model());
        assert(mb[k] == eb[ii].1.model());
    }
    assert(ma =~= mb);
}

/// Lexicographic comparison of two strings by scalar value: true when `a`
/// sorts strictly before `b`.
pub fn str_lt(a: &str, b: &str) -> (r: bool)
    ensures
        r == lex_lt(a@, b@),
{
    let alen = a.unicode_len();
    let blen = b.unicode_len();
    let mut i: usize = 0;
    proof {
        assert(a@.subrange(0, alen as int) =~= a@);
        assert(b@.subrange(0, blen as int) =~= b@);
    }
    loop
        invariant
            i <= alen,
            i <= blen,
            alen == a@.len(),
            blen == b@.len(),
            lex_lt(a@, b@) == lex_lt(
                a@.subrange(i as int, alen as int),
                b@.subrange(i as int, blen as int),
            ),
        decreases alen - i,
    {
        let ghost sa = a@.subrange(i as int, alen as int);
        let ghost sb = b@.subrange(i as int, blen as int);
        if i == alen {
            assert(sa.len() == 0);
            return i < blen;
        }
        if i == blen {
            assert(sb.len() == 0);
            return false;
        }
        let ca = a.get_char(i);
        let cb = b.get_char(i);
        proof {
            assert(sa[0] == a@[i as int]);
            assert(sb[0] == b@[i as int]);
        }
        if (ca as u32) < (cb as u32) {
            return true;
        }
        if (cb as u32) < (ca as u32) {
            proof {
                vstd::utf8::char_u32_cast(ca, ca as u32);
                vstd::utf8::char_u32_cast(cb, cb as u32);
                assert(sa[0] != sb[0]);
            }
            return false;
        }
        proof {
            vstd::utf8::char_u32_cast(ca, ca as u32);
            vstd::utf8::char_u32_cast(cb, cb as u32);
            assert(ca == cb);
            assert(sa.subrange(1, sa.len() as int) =~= a@.subrange(i + 1, alen as int));
            assert(sb.subrange(1, sb.len() as int) =~= b@.subrange(i + 1, blen as int));
        }
        i = i + 1;
    }
}

/// Finds the position at which a fresh key slots into entries already in
/// strictly ascending key order, assuming the key matches none of theirs.
fn find_insert_pos(out: &Vec<(String, CanonValue)>, key: &String) -> (pos: usize)
    requires
        forall|i: int, j: int|
            0 <= i < j < out@.len() ==> lex_lt((#[trigger] out@[i]).0@, (#[trigger] out@[j]).0@),
        forall|q: int| 0 <= q < out@.len() ==> (#[trigger] out@[q]).0@ != key@,
    ensures
        pos <= out@.len(),
        forall|q: int| 0 <= q < pos ==> lex_lt((#[trigger] out@[q]).0@, key@),
        forall|q: int| pos <= q < out@.len() ==> lex_lt(key@, (#[trigger] out@[q]).0@),
{
    let mut pos: usize = 0;
    while pos < out.len()
        invariant
            pos <= out@.len(),
            forall|q: int| 0 <= q < pos ==> lex_lt((#[trigger] out@[q]).0@, key@),
            forall|i: int, j: int|
                0 <= i < j < out@.len() ==> lex_lt((#[trigger] out@[i]).0@, (#[trigger] out@[j]).0@),
            forall|q: int| 0 <= q < out@.len() ==> (#[trigger] out@[q]).0@ != key@,
        decreases out@.len() - pos,
    {
        let keep_going = str_lt(vstd::std_specs::vec::vec_index(out, pos).0.as_str(), key.as_str());
        if !keep_going {
            proof {
                lemma_lex_lt_connected(out@[pos as int].0@, key@);
                assert(lex_lt(key@, out@[pos as int].0@));
                assert forall|q: int|
                    pos <= q < out@.len() implies lex_lt(key@, (#[trigger] out@[q]).0@) by {
                    if q > pos {
                        lemma_lex_lt_trans(key@, out@[pos as int].0@, out@[q].0@);
                    }
                }
            }
            return pos;
        }
        pos = pos + 1;
    }
    pos
}

/// Sorts object entries by key in strictly ascending lexicographic order.
/// Requires the keys to be pairwise distinct; returns a rearrangement.
fn sort_entries(entries: &mut Vec<(String, CanonValue)>)
    requires
        forall|i: int, j: int|
            0 <= i < j < old(entries)@.len() ==> (#[trigger] old(entries)@[i]).0@ != (
            #[trigger] old(entries)@[j]).0@,
    ensures
        forall|i: int, j: int|
            0 <= i < j < final(entries)@.len() ==> lex_lt(
                (#[trigger] final(entries)@[i]).0@,
                (#[trigger] final(entries)@[j]).0@,
            ),
        forall|i: int|
            0 <= i < final(entries)@.len() ==> old(entries)@.contains(#[trigger] final(entries)@[i]),
        forall|i: int|
            0 <= i < old(entries)@.len() ==> final(entries)@.contains(#[trigger] old(entries)@[i]),
        final(entries)@.len() == old(entries)@.len(),
{
    let ghost orig = old(entries)@;
    let mut out: Vec<(String, CanonValue)> = Vec::new();
    let ghost mut done: int = 0;
    while entries.len() > 0
        invariant
            0 <= done <= orig.len(),
            entries@ =~= orig.subrange(done, orig.len() as int),
            out@.len() == done,
            forall|i: int, j: int|
                0 <= i < j < out@.len() ==> lex_lt((#[trigger] out@[i]).0@, (#[trigger] out@[j]).0@),
            forall|i: int| 0 <= i < out@.len() ==> orig.subrange(0, done).contains(#[trigger] out@[i]),
            forall|i: int| 0 <= i < done ==> out@.contains(#[trigger] orig[i]),
            forall|i: int, j: int|
                0 <= i < j < orig.len() ==> (#[trigger] orig[i]).0@ != (#[trigger] orig[j]).0@,
        decreases orig.len() - done,
    {
        let e = entries.remove(0);
        proof {
            assert(e == orig[done]);
            assert(entries@ =~= orig.subrange(done + 1, orig.len() as int));
        }
        // every key already placed differs from the key of `e`
        proof {
            assert forall|q: int| 0 <= q < out@.len() implies out@[q].0@ != e.0@ by {
                let w = choose|w: int| 0 <= w < done && orig.subrange(0, done)[w] == out@[q];
                assert(orig[w] == out@[q]);
                assert(orig[w].0@ != orig[done].0@);
            }
        }
        let pos = find_insert_pos(&out, &e.0);
        let ghost out_before = out@;
        out.insert(pos, e);
        proof {
            let inserted = out_before.insert(pos as int, e);
            assert(out@ == inserted);
            assert forall|i: int, j: int|
                0 <= i < j < out@.len() implies lex_lt(
                (#[trigger] out@[i]).0@,
                (#[trigger] out@[j]).0@,
            ) by {
                let pi = pos as int;
                if i < pi && j < pi {
                    assert(out@[i] == out_before[i]);
                    assert(out@[j] == out_before[j]);
                } else if i < pi && j == pi {
                    assert(out@[i] == out_before[i]);
                    assert(out@[j] == e);
                } else if i < pi && j > pi {
                    assert(out@[i] == out_before[i]);
                    assert(out@[j] == out_before[j - 1]);
                } else if i == pi {
                    assert(out@[i] == e);
                    assert(out@[j] == out_before[j - 1]);
                } else {
                    assert(out@[i] == out_before[i - 1]);
                    assert(out@[j] == out_before[j - 1]);
                }
            }
            assert forall|i: int|
                0 <= i < out@.len() implies orig.subrange(0, done + 1).contains(
                #[trigger] out@[i],
            ) by {
                let pi = pos as int;
                if i < pi {
                    assert(out@[i] == out_before[i]);
                    let w = choose|w: int| 0 <= w < done && orig.subrange(0, done)[w] == out_before[i];
                    assert(orig.subrange(0, done + 1)[w] == out@[i]);
                } else if i == pi {
                    assert(out@[i] == e);
                    assert(orig.subrange(0, done + 1)[done] == e);
                } else {
                    assert(out@[i] == out_before[i - 1]);
                    let w = choose|w: int|
                        0 <= w < done && orig.subrange(0, done)[w] == out_before[i - 1];
                    assert(orig.subrange(0, done + 1)[w] == out@[i]);
                }
            }
            assert forall|i: int| 0 <= i < done + 1 implies out@.contains(#[trigger] orig[i]) by {
                let pi = pos as int;
                if i == done {
                    assert(out@[pi] == e);
                } else {
                    let w = choose|w: int| 0 <= w < out_before.len() && out_before[w] == orig[i];
                    if w < pi {
                        assert(out@[w] == orig[i]);
                    } else {
                        assert(out@[w + 1] == orig[i]);
                    }
                }
            }
            done = done + 1;
        }
    }
    proof {
        assert(done == orig.len());
        assert forall|i: int| 0 <= i < out@.len() implies orig.contains(#[trigger] out@[i]) by {
            let sub = orig.subrange(0, done);
            assert(sub.contains(out@[i]));
            let w = choose|w: int| 0 <= w < sub.len() && sub[w] == out@[i];
            assert(orig[w] == out@[i]);
        }
    }
    let ghost snap = out@;
    proof {
        assert(forall|i: int| 0 <= i < snap.len() ==> orig.contains(#[trigger] snap[i]));
        assert(forall|i: int| 0 <= i < done ==> snap.contains(#[trigger] orig[i]));
    }
    *entries = out;
    proof {
        assert(entries@ == snap);
        assert forall|i: int| 0 <= i < old(entries)@.len() implies entries@.contains(
            #[trigger] old(entries)@[i],
        ) by {
            assert(snap.contains(orig[i]));
            let w = choose|w: int| 0 <= w < snap.len() && snap[w] == orig[i];
            assert(entries@[w] == orig[i]);
        }
    }
}

/// Structural copy of a payload tree.
#[verifier::loop_isolation(false)]
pub fn duplicate(v: &CanonValue) -> (r: CanonValue)
    ensures
        r@ == v@,
    decreases v,
{
    match v {
        CanonValue::Null => CanonValue::Null,
        CanonValue::Bool(b) => CanonValue::Bool(*b),
        CanonValue::Int(i) => CanonValue::Int(*i),
        CanonValue::Str(s) => CanonValue::Str(s.clone()),
        CanonValue::Arr(items) => {
            let mut out: Vec<CanonValue> = Vec::new();
            let mut i: usize = 0;
            while i < items.len()
                invariant
                    i <= items@.len(),
                    out@.len() == i,
                    forall|j: int| 0 <= j < i ==> (#[trigger] out@[j])@ == items@[j]@,
                decreases items@.len() - i,
            {
                let x = duplicate(vstd::std_specs::vec::vec_index(items, i));
                out.push(x);
                i = i + 1;
            }
            let r = CanonValue::Arr(out);
            proof {
                assert(r@->Arr_0 =~= v@->Arr_0);
                assert(r@ == v@);
            }
            r
        }
        CanonValue::Obj(entries) => {
            let mut out: Vec<(String, CanonValue)> = Vec::new();
            let mut i: usize = 0;
            while i < entries.len()
                invariant
                    i <= entries@.len(),
                    out@.len() == i,
                    forall|j: int|
                        0 <= j < i ==> (#[trigger] out@[j]).0 == entries@[j].0 && out@[j].1@
                            == entries@[j].1@,
                decreases entries@.len() - i,
            {
                let pair = vstd::std_specs::vec::vec_index(entries, i);
                let k = pair.0.clone();
                let val = duplicate(&pair.1);
                out.push((k, val));
                i = i + 1;
            }
            let r = CanonValue::Obj(out);
            proof {
                assert(r@->Obj_0 =~= v@->Obj_0);
                assert(r@ == v@);
            }
            r
        }
    }
}

/// Normalizes a payload: every object's entries are put in strictly
/// ascending key order, at every depth, leaving array order and scalars
/// untouched. The result is the canonical representative of the input's
/// semantic value.
pub fn normalize(v: &CanonValue) -> (r: CanonValue)
    requires
        v@.wf(),
    ensures
        r@.wf(),
        r@.keys_sorted(),
        r@.model() == v@.model(),
        r@ == canonical_tree(v@.model()),
    decreases v,
{
    let r = normalize_rec(v);
    proof {
        let m = v@.model();
        let t = canonical_tree(m);
        assert(r@.wf() && r@.keys_sorted() && r@.model() == m);
        assert(t.wf() && t.keys_sorted() && t.model() == m);
        lemma_canonical_unique(t, r@);
    }
    r
}

/// The recursive worker behind [`normalize`].
#[verifier::loop_isolation(false)]
fn normalize_rec(v: &CanonValue) -> (r: CanonValue)
    requires
        v@.wf(),
    ensures
        r@.wf(),
        r@.keys_sorted(),
        r@.model() == v@.model(),
    decreases v,
{
    match v {
        CanonValue::Null => CanonValue::Null,
        CanonValue::Bool(b) => CanonValue::Bool(*b),
        CanonValue::Int(i) => CanonValue::Int(*i),
        CanonValue::Str(s) => CanonValue::Str(s.clone()),
        CanonValue::Arr(items) => {
            let ghost at = v@->Arr_0;
            let mut out: Vec<CanonValue> = Vec::new();
            let mut i: usize = 0;
            while i < items.len()
                invariant
                    i <= items@.len(),
                    out@.len() == i,
                    v@ == CanonValue::Arr(*items)@,
                    v@.wf(),
                    at == v@->Arr_0,
                    at.len() == items@.len(),
                    forall|j: int| 0 <= j < items@.len() ==> #[trigger] at[j] == items@[j]@,
                    forall|j: int|
                        0 <= j < i ==> (#[trigger] out@[j])@.wf() && out@[j]@.keys_sorted()
                            && out@[j]@.model() == at[j].model(),
                decreases items@.len() - i,
            {
                proof {
                    assert(at[i as int].wf());
                }
                let x = normalize_rec(vstd::std_specs::vec::vec_index(items, i));
                out.push(x);
                i = i + 1;
            }
            let r = CanonValue::Arr(out);
            proof {
                let rt = r@->Arr_0;
                assert(rt.len() == out@.len());
                assert forall|j: int| 0 <= j < rt.len() implies (#[trigger] rt[j]).wf()
                    && rt[j].keys_sorted() && rt[j].model() == at[j].model() by {
                    assert(rt[j] == out@[j]@);
                }
                assert(r@.model()->Arr_0 =~= v@.model()->Arr_0);
                assert(r@.model() == v@.model());
            }
            r
        }
        CanonValue::Obj(entries) => {
            let ghost et = v@->Obj_0;
            let mut mid: Vec<(String, CanonValue)> = Vec::new();
            let mut i: usize = 0;
            while i < entries.len()
                invariant
                    i <= entries@.len(),
                    mid@.len() == i,
                    v@ == CanonValue::Obj(*entries)@,
                    v@.wf(),
                    et == v@->Obj_0,
                    et.len() == entries@.len(),
                    forall|j: int|
                        0 <= j < entries@.len() ==> #[trigger] et[j] == (
                        entries@[j].0@,
                        entries@[j].1@,
                        ),
                    forall|j: int|
                        0 <= j < i ==> (#[trigger] mid@[j]).0 == entries@[j].0 && mid@[j].1@.wf()
                            && mid@[j].1@.keys_sorted() && mid@[j].1@.model() == et[j].1.model(),
                decreases entries@.len() - i,
            {
                proof {
                    assert(et[i as int].1.wf());
                }
                let pair = vstd::std_specs::vec::vec_index(entries, i);
                let k = pair.0.clone();
                let val = normalize_rec(&pair.1);
                mid.push((k, val));
                i = i + 1;
            }
            let ghost mt = entries_tree(mid@);
            proof {
                // the keys of `mid` are pairwise distinct, as in the source object
                assert forall|a: int, b: int|
                    0 <= a < b < mid@.len() implies (#[trigger] mid@[a]).0@ != (
                #[trigger] mid@[b]).0@ by {
                    assert(et[a].0 == entries@[a].0@);
                    assert(et[b].0 == entries@[b].0@);
                }
                assert(unique_keys(et));
                assert(unique_keys(mt)) by {
                    assert forall|a: int, b: int|
                        0 <= a < b < mt.len() implies (#[trigger] mt[a]).0 != (
                    #[trigger] mt[b]).0 by {
                        assert(mt[a].0 == mid@[a].0@);
                        assert(mt[b].0 == mid@[b].0@);
                    }
                }
                // same keys and value models entry by entry
                assert forall|j: int| 0 <= j < et.len() implies (#[trigger] et[j]).0 == mt[j].0
                    && et[j].1.model() == mt[j].1.model() by {
                    assert(mt[j] == (mid@[j].0@, mid@[j].1.tree()));
                }
                lemma_obj_model_pointwise(et, mt);
                assert(SpecTree::Obj(et).model() == SpecTree::Obj(mt).model());
            }
            let ghost mid_before = mid@;
            sort_entries(&mut mid);
            let r = CanonValue::Obj(mid);
            proof {
                let rt = r@->Obj_0;
                assert(rt =~= entries_tree(mid@));
                // each sorted entry is one of the entries before sorting
                assert forall|j: int| 0 <= j < rt.len() implies mt.contains(#[trigger] rt[j]) by {
                    assert(mid_before.contains(mid@[j]));
                    let w = choose|w: int| 0 <= w < mid_before.len() && mid_before[w] == mid@[j];
                    assert(mt[w] == (mid_before[w].0@, mid_before[w].1.tree()));
                    assert(rt[j] == (mid@[j].0@, mid@[j].1.tree()));
                    assert(mt[w] == rt[j]);
                }
                assert forall|j: int| 0 <= j < mt.len() implies rt.contains(#[trigger] mt[j]) by {
                    assert(mid@.contains(mid_before[j]));
                    let w = choose|w: int| 0 <= w < mid@.len() && mid@[w] == mid_before[j];
                    assert(rt[w] == (mid@[w].0@, mid@[w].1.tree()));
                    assert(mt[j] == (mid_before[j].0@, mid_before[j].1.tree()));
                    assert(rt[w] == mt[j]);
                }
                // keys strictly sorted at the tree level
                assert forall|a: int, b: int|
                    0 <= a < b < rt.len() implies lex_lt(
                    (#[trigger] rt[a]).0,
                    (#[trigger] rt[b]).0,
                ) by {
                    assert(rt[a].0 == mid@[a].0@);
                    assert(rt[b].0 == mid@[b].0@);
                }
                assert(unique_keys(rt)) by {
                    assert forall|a: int, b: int|
                        0 <= a < b < rt.len() implies (#[trigger] rt[a]).0 != (
                    #[trigger] rt[b]).0 by {
                        lemma_lex_lt_irrefl(rt[a].0);
                    }
                }
                // each value in the sorted object is well-formed and canonical
                assert forall|j: int|
                    0 <= j < rt.len() implies (#[trigger] rt[j]).1.wf()
                        && rt[j].1.keys_sorted() by {
                    assert(mt.contains(rt[j]));
                    let w = choose|w: int| 0 <= w < mt.len() && mt[w] == rt[j];
                    assert(mt[w].1 == mid_before[w].1.tree());
                    assert(mid_before[w].1@.wf() && mid_before[w].1@.keys_sorted());
                }
                lemma_obj_model_congruence(rt, mt);
                assert(r@ == SpecTree::Obj(rt));
                assert(r@.model() == SpecTree::Obj(mt).model());
                assert(v@ == SpecTree::Obj(et));
                assert(r@.model() == v@.model());
                assert(r@.wf());
                assert(r@.keys_sorted());
            }
            r
        }
    }
}

// ------------------------------------------------------------------
// Wire format: a compact, self-describing binary encoding with named
// fields, in the MessagePack framing used for all mesh traffic.
// ------------------------------------------------------------------

/// The two big-endian bytes of a 16-bit value.
pub open spec fn be16(x: u16) -> Seq<u8> {
    seq![((x >> 8) & 0xff) as u8, (x & 0xff) as u8]
}

/// The four big-endian bytes of a 32-bit value.
pub open spec fn be32(x: u32) -> Seq<u8> {
    seq![
        ((x >> 24) & 0xff) as u8,
        ((x >> 16) & 0xff) as u8,
        ((x >> 8) & 0xff) as u8,
        (x & 0xff) as u8,
    ]
}

/// The eight big-endian bytes of a 64-bit value.
pub open spec fn be64(x: u64) -> Seq<u8> {
    seq![
        ((x >> 56) & 0xff) as u8,
        ((x >> 48) & 0xff) as u8,
        ((x >> 40) & 0xff) as u8,
        ((x >> 32) & 0xff) as u8,
        ((x >> 24) & 0xff) as u8,
        ((x >> 16) & 0xff) as u8,
        ((x >> 8) & 0xff) as u8,
        (x & 0xff) as u8,
    ]
}

/// Reassembles a 32-bit value from its big-endian bytes.
pub open spec fn from_be32(b0: u8, b1: u8, b2: u8, b3: u8) -> u32 {
    ((b0 as u32) << 24) | ((b1 as u32) << 16) | ((b2 as u32) << 8) | (b3 as u32)
}

/// Reassembles a 64-bit value from its big-endian bytes.
pub open spec fn from_be64(b0: u8, b1: u8, b2: u8, b3: u8, b4: u8, b5: u8, b6: u8, b7: u8) -> u64 {
    ((b0 as u64) << 56) | ((b1 as u64) << 48) | ((b2 as u64) << 40) | ((b3 as u64) << 32) | ((
    b4 as u64) << 24) | ((b5 as u64) << 16) | ((b6 as u64) << 8) | (b7 as u64)
}

pub proof fn lemma_be32_roundtrip(x: u32)
    ensures
        from_be32(
            ((x >> 24) & 0xff) as u8,
            ((x >> 16) & 0xff) as u8,
            ((x >> 8) & 0xff) as u8,
            (x & 0xff) as u8,
        ) == x,
{
    assert((((((x >> 24) & 0xff) as u8) as u32) << 24) | (((((x >> 16) & 0xff) as u8) as u32)
        << 16) | (((((x >> 8) & 0xff) as u8) as u32) << 8) | (((x & 0xff) as u8) as u32) == x)
        by (bit_vector);
}

pub proof fn lemma_be64_roundtrip(x: u64)
    ensures
        from_be64(
            ((x >> 56) & 0xff) as u8,
            ((x >> 48) & 0xff) as u8,
            ((x >> 40) & 0xff) as u8,
            ((x >> 32) & 0xff) as u8,
            ((x >> 24) & 0xff) as u8,
            ((x >> 16) & 0xff) as u8,
            ((x >> 8) & 0xff) as u8,
            (x & 0xff) as u8,
        ) == x,
{
    assert((((((x >> 56) & 0xff) as u8) as u64) << 56) | (((((x >> 48) & 0xff) as u8) as u64)
        << 48) | (((((x >> 40) & 0xff) as u8) as u64) << 40) | (((((x >> 32) & 0xff) as u8) as u64)
        << 32) | (((((x >> 24) & 0xff) as u8) as u64) << 24) | (((((x >> 16) & 0xff) as u8) as u64)
        << 16) | (((((x >> 8) & 0xff) as u8) as u64) << 8) | (((x & 0xff) as u8) as u64) == x)
        by (bit_vector);
}

/// The unsigned 64-bit two's-complement image of a signed 64-bit value.
pub open spec fn u64_of_i64(i: int) -> u64
    recommends
        i64::MIN <= i <= i64::MAX,
{
    if i >= 0 {
        i as u64
    } else {
        (i + 0x1_0000_0000_0000_0000) as u64
    }
}

/// The signed reading of an unsigned 64-bit two's-complement image.
pub open spec fn i64_of_u64(x: u64) -> int {
    if x < 0x8000_0000_0000_0000 {
        x as int
    } else {
        x as int - 0x1_0000_0000_0000_0000
    }
}

pub proof fn lemma_i64_bits_roundtrip(i: int)
    requires
        i64::MIN <= i <= i64::MAX,
    ensures
        i64_of_u64(u64_of_i64(i)) == i,
{
}

/// Whether a tree fits the wire format's length fields: every string,
/// array and object must be shorter than two to the thirty-second.
pub open spec fn encodable(t: SpecTree) -> bool
    decreases t,
{
    match t {
        SpecTree::Null => true,
        SpecTree::Bool(_) => true,
        SpecTree::Int(i) => i64::MIN <= i <= i64::MAX,
        SpecTree::Str(s) => vstd::utf8::encode_utf8(s).len() < 0x1_0000_0000,
        SpecTree::Arr(items) => items.len() < 0x1_0000_0000 && (forall|i: int|
            0 <= i < items.len() ==> encodable(#[trigger] items[i])),
        SpecTree::Obj(entries) => entries.len() < 0x1_0000_0000 && (forall|i: int|
            0 <= i < entries.len() ==> vstd::utf8::encode_utf8((#[trigger] entries[i]).0).len()
                < 0x1_0000_0000) && (forall|i: int|
            0 <= i < entries.len() ==> encodable((#[trigger] entries[i]).1)),
    }
}

/// The wire bytes of a string: a fixstr or str32 header, then UTF-8.
pub open spec fn ser_str(s: Seq<char>) -> Seq<u8> {
    let b = vstd::utf8::encode_utf8(s);
    if b.len() < 32 {
        seq![(0xa0 + b.len()) as u8] + b
    } else {
        seq![0xdbu8] + be32(b.len() as u32) + b
    }
}

/// The wire bytes of a tree.
pub open spec fn ser(t: SpecTree) -> Seq<u8>
    decreases t, 1int,
{
    match t {
        SpecTree::Null => seq![0xc0u8],
        SpecTree::Bool(b) => if b {
            seq![0xc3u8]
        } else {
            seq![0xc2u8]
        },
        SpecTree::Int(i) => if 0 <= i <= 127 {
            seq![i as u8]
        } else if -32 <= i < 0 {
            seq![(i + 256) as u8]
        } else {
            seq![0xd3u8] + be64(u64_of_i64(i))
        },
        SpecTree::Str(s) => ser_str(s),
        SpecTree::Arr(items) => if items.len() < 16 {
            seq![(0x90 + items.len()) as u8] + ser_list(items)
        } else {
            seq![0xddu8] + be32(items.len() as u32) + ser_list(items)
        },
        SpecTree::Obj(entries) => if entries.len() < 16 {
            seq![(0x80 + entries.len()) as u8] + ser_entries(entries)
        } else {
            seq![0xdfu8] + be32(entries.len() as u32) + ser_entries(entries)
        },
    }
}

/// The concatenated wire bytes of a sequence of trees.
pub open spec fn ser_list(items: Seq<SpecTree>) -> Seq<u8>
    decreases items, 0int,
{
    if items.len() == 0 {
        Seq::empty()
    } else {
        ser(items[0]) + ser_list(items.subrange(1, items.len() as int))
    }
}

/// The concatenated wire bytes of an object's entries: each key as a
/// string, then its value.
pub open spec fn ser_entries(entries: Seq<(Seq<char>, SpecTree)>) -> Seq<u8>
    decreases entries, 0int,
{
    if entries.len() == 0 {
        Seq::empty()
    } else {
        ser_str(entries[0].0) + ser(entries[0].1) + ser_entries(
            entries.subrange(1, entries.len() as int),
        )
    }
}

/// Every tree's encoding starts with at least one header byte.
pub proof fn lemma_ser_len(t: SpecTree)
    ensures
        ser(t).len() >= 1,
{
}

/// Parses one string body of `n` UTF-8 bytes after a header of `hdr` bytes.
pub open spec fn parse_str_body(s: Seq<u8>, n: int, hdr: int) -> Option<(SpecTree, int)> {
    if s.len() >= hdr + n && n >= 0 {
        let b = s.subrange(hdr, hdr + n);
        if vstd::utf8::valid_utf8(b) {
            Some((SpecTree::Str(vstd::utf8::decode_utf8(b)), hdr + n))
        } else {
            None
        }
    } else {
        None
    }
}

/// Parses one tree from the front of `s`, returning it and the number of
/// bytes consumed; `None` when the bytes are not a valid encoding.
pub open spec fn parse(s: Seq<u8>) -> Option<(SpecTree, int)>
    decreases s.len(), 0int,
{
    if s.len() == 0 {
        None
    } else {
        let b0 = s[0];
        if b0 < 0x80 {
            Some((SpecTree::Int(b0 as int), 1))
        } else if b0 < 0x90 {
            match parse_entries(s.subrange(1, s.len() as int), (b0 - 0x80) as int) {
                Some((es, k)) => Some((SpecTree::Obj(es), 1 + k)),
                None => None,
            }
        } else if b0 < 0xa0 {
            match parse_list(s.subrange(1, s.len() as int), (b0 - 0x90) as int) {
                Some((items, k)) => Some((SpecTree::Arr(items), 1 + k)),
                None => None,
            }
        } else if b0 < 0xc0 {
            parse_str_body(s, (b0 - 0xa0) as int, 1)
        } else if b0 == 0xc0 {
            Some((SpecTree::Null, 1))
        } else if b0 == 0xc2 {
            Some((SpecTree::Bool(false), 1))
        } else if b0 == 0xc3 {
            Some((SpecTree::Bool(true), 1))
        } else if b0 == 0xd3 {
            if s.len() >= 9 {
                Some(
                    (
                        SpecTree::Int(
                            i64_of_u64(
                                from_be64(s[1], s[2], s[3], s[4], s[5], s[6], s[7], s[8]),
                            ),
                        ),
                        9,
                    ),
                )
            } else {
                None
            }
        } else if b0 == 0xdb {
            if s.len() >= 5 {
                parse_str_body(s, from_be32(s[1], s[2], s[3], s[4]) as int, 5)
            } else {
                None
            }
        } else if b0 == 0xdd {
            if s.len() >= 5 {
                match parse_list(
                    s.subrange(5, s.len() as int),
                    from_be32(s[1], s[2], s[3], s[4]) as int,
                ) {
                    Some((items, k)) => Some((SpecTree::Arr(items), 5 + k)),
                    None => None,
                }
            } else {
                None
            }
        } else if b0 == 0xdf {
            if s.len() >= 5 {
                match parse_entries(
                    s.subrange(5, s.len() as int),
                    from_be32(s[1], s[2], s[3], s[4]) as int,
                ) {
                    Some((es, k)) => Some((SpecTree::Obj(es), 5 + k)),
                    None => None,
                }
            } else {
                None
            }
        } else if b0 >= 0xe0 {
            // negative fixint
            Some((SpecTree::Int(b0 as int - 256), 1))
        } else {
            None
        }
    }
}

/// Parses `n` consecutive trees from the front of `s`.
pub open spec fn parse_list(s: Seq<u8>, n: int) -> Option<(Seq<SpecTree>, int)>
    decreases s.len(), 1int, n,
{
    if n <= 0 {
        Some((Seq::empty(), 0))
    } else {
        match parse(s) {
            Some((v, k)) => if 1 <= k <= s.len() {
                match parse_list(s.subrange(k, s.len() as int), n - 1) {
                    Some((items, k2)) => Some((seq![v] + items, k + k2)),
                    None => None,
                }
            } else {
                None
            },
            None => None,
        }
    }
}

/// Parses `n` consecutive key-value pairs from the front of `s`.
pub open spec fn parse_entries(s: Seq<u8>, n: int) -> Option<(Seq<(Seq<char>, SpecTree)>, int)>
    decreases s.len(), 1int, n,
{
    if n <= 0 {
        Some((Seq::empty(), 0))
    } else {
        match parse(s) {
            Some((key_tree, k1)) => match key_tree {
                SpecTree::Str(key) => if 1 <= k1 <= s.len() {
                    match parse(s.subrange(k1, s.len() as int)) {
                        Some((v, k2)) => if 1 <= k2 <= s.len() - k1 {
                            match parse_entries(s.subrange(k1 + k2, s.len() as int), n - 1) {
                                Some((es, k3)) => Some((seq![(key, v)] + es, k1 + k2 + k3)),
                                None => None,
                            }
                        } else {
                            None
                        },
                        None => None,
                    }
                } else {
                    None
                },
                _ => None,
            },
            None => None,
        }
    }
}

/// Round trip: the parser recovers exactly the tree that was serialized,
/// consuming exactly its bytes, whatever follows them.
#[verifier::rlimit(100)]
pub proof fn lemma_parse_ser(t: SpecTree, rest: Seq<u8>)
    requires
        encodable(t),
    ensures
        parse(ser(t) + rest) == Some((t, ser(t).len() as int)),
    decreases t, 1int,
{
    let s = ser(t) + rest;
    match t {
        SpecTree::Null => {
            assert(s[0] == 0xc0);
        }
        SpecTree::Bool(b) => {
            assert(s[0] == (if b { 0xc3u8 } else { 0xc2u8 }));
        }
        SpecTree::Int(i) => {
            if 0 <= i <= 127 {
                assert(s[0] == i as u8);
                assert((i as u8) < 0x80);
                assert(s[0] as int == i);
            } else if -32 <= i < 0 {
                assert(s[0] == (i + 256) as u8);
                assert(s[0] >= 0xe0);
                assert(s[0] as int - 256 == i);
            } else {
                let x = u64_of_i64(i);
                let body = be64(x);
                assert(ser(t) == seq![0xd3u8] + body);
                assert(s.len() >= 9);
                assert(s[0] == 0xd3);
                assert forall|q: int| 0 <= q < 8 implies s[q + 1] == #[trigger] body[q] by {
                    assert(ser(t)[q + 1] == body[q]);
                }
                lemma_be64_roundtrip(x);
                assert(from_be64(s[1], s[2], s[3], s[4], s[5], s[6], s[7], s[8]) == x);
                lemma_i64_bits_roundtrip(i);
            }
        }
        SpecTree::Str(st) => {
            lemma_parse_ser_str(st, rest);
            assert(ser(t) == ser_str(st));
            let pr = parse(ser_str(st) + rest);
            assert(pr == Some((SpecTree::Str(st), ser_str(st).len() as int)));
        }
        SpecTree::Arr(items) => {
            let n = items.len() as int;
            let body = ser_list(items);
            lemma_parse_list_ser(items, rest);
            if items.len() < 16 {
                assert(ser(t) == seq![(0x90 + items.len()) as u8] + body);
                assert(s[0] == (0x90 + items.len()) as u8);
                assert(0x90 <= s[0] < 0xa0);
                assert(s[0] - 0x90 == n);
                assert(s.subrange(1, s.len() as int) =~= body + rest);
                assert(parse_list(body + rest, n) == Some((items, body.len() as int)));
                assert(parse(s) == Some((SpecTree::Arr(items), 1 + body.len() as int)));
                assert(ser(t).len() == 1 + body.len());
            } else {
                let hdr = seq![0xddu8] + be32(items.len() as u32);
                assert(ser(t) == hdr + body);
                assert(s =~= hdr + (body + rest));
                assert(s[0] == 0xdd);
                assert(s.len() >= 5);
                assert forall|q: int| 0 <= q < 4 implies s[q + 1] == #[trigger] be32(items.len() as u32)[q] by {
                    assert(hdr[q + 1] == be32(items.len() as u32)[q]);
                    assert(s[q + 1] == hdr[q + 1]);
                }
                lemma_be32_roundtrip(items.len() as u32);
                assert(from_be32(s[1], s[2], s[3], s[4]) == items.len() as u32);
                assert(s.subrange(5, s.len() as int) =~= body + rest);
                assert(parse(s) == Some((SpecTree::Arr(items), 5 + body.len() as int)));
                assert(ser(t).len() == 5 + body.len());
            }
        }
        SpecTree::Obj(entries) => {
            let n = entries.len() as int;
            let body = ser_entries(entries);
            lemma_parse_entries_ser(entries, rest);
            if entries.len() < 16 {
                assert(ser(t) == seq![(0x80 + entries.len()) as u8] + body);
                assert(s[0] == (0x80 + entries.len()) as u8);
                assert(0x80 <= s[0] < 0x90);
                assert(s[0] - 0x80 == n);
                assert(s.subrange(1, s.len() as int) =~= body + rest);
                assert(parse(s) == Some((SpecTree::Obj(entries), 1 + body.len() as int)));
                assert(ser(t).len() == 1 + body.len());
            } else {
                let hdr = seq![0xdfu8] + be32(entries.len() as u32);
                assert(ser(t) == hdr + body);
                assert(s =~= hdr + (body + rest));
                assert(s[0] == 0xdf);
                assert(s.len() >= 5);
                assert forall|q: int| 0 <= q < 4 implies s[q + 1] == #[trigger] be32(entries.len() as u32)[q] by {
                    assert(hdr[q + 1] == be32(entries.len() as u32)[q]);
                    assert(s[q + 1] == hdr[q + 1]);
                }
                lemma_be32_roundtrip(entries.len() as u32);
                assert(from_be32(s[1], s[2], s[3], s[4]) == entries.len() as u32);
                assert(s.subrange(5, s.len() as int) =~= body + rest);
                assert(parse(s) == Some((SpecTree::Obj(entries), 5 + body.len() as int)));
                assert(ser(t).len() == 5 + body.len());
            }
        }
    }
}

/// Round trip for one serialized string.
pub proof fn lemma_parse_ser_str(st: Seq<char>, rest: Seq<u8>)
    requires
        vstd::utf8::encode_utf8(st).len() < 0x1_0000_0000,
    ensures
        parse(ser_str(st) + rest) == Some((SpecTree::Str(st), ser_str(st).len() as int)),
{
    let b = vstd::utf8::encode_utf8(st);
    let s = ser_str(st) + rest;
    vstd::utf8::encode_utf8_valid_utf8(st);
    vstd::utf8::encode_utf8_decode_utf8(st);
    if b.len() < 32 {
        assert(ser_str(st) == seq![(0xa0 + b.len()) as u8] + b);
        assert(s[0] == (0xa0 + b.len()) as u8);
        assert(0xa0 <= s[0] < 0xc0);
        let n = s[0] - 0xa0;
        assert(n as int == b.len());
        assert(s.len() >= 1 + b.len());
        assert(s.subrange(1, 1 + b.len() as int) =~= b);
        assert(parse_str_body(s, n as int, 1) == Some(
            (SpecTree::Str(st), 1 + b.len() as int),
        ));
        assert(ser_str(st).len() == 1 + b.len());
    } else {
        let hdr = seq![0xdbu8] + be32(b.len() as u32);
        assert(ser_str(st) == hdr + b);
        assert(s =~= hdr + (b + rest));
        assert(s[0] == 0xdb);
        assert(s.len() >= 5);
        assert forall|q: int| 0 <= q < 4 implies s[q + 1] == #[trigger] be32(b.len() as u32)[q] by {
            assert(hdr[q + 1] == be32(b.len() as u32)[q]);
            assert(s[q + 1] == hdr[q + 1]);
        }
        lemma_be32_roundtrip(b.len() as u32);
        assert(from_be32(s[1], s[2], s[3], s[4]) == b.len() as u32);
        assert(s.subrange(5, 5 + b.len() as int) =~= b);
        assert(parse_str_body(s, b.len() as int, 5) == Some(
            (SpecTree::Str(st), 5 + b.len() as int),
        ));
        assert(ser_str(st).len() == 5 + b.len());
    }
}

/// Round trip for a serialized sequence of trees.
#[verifier::rlimit(100)]
pub proof fn lemma_parse_list_ser(items: Seq<SpecTree>, rest: Seq<u8>)
    requires
        forall|i: int| 0 <= i < items.len() ==> encodable(#[trigger] items[i]),
    ensures
        parse_list(ser_list(items) + rest, items.len() as int) == Some(
            (items, ser_list(items).len() as int),
        ),
    decreases items, 0int,
{
    if items.len() == 0 {
        assert(items =~= Seq::<SpecTree>::empty());
    } else {
        let hd = items[0];
        let tl = items.subrange(1, items.len() as int);
        let s = ser_list(items) + rest;
        assert(ser_list(items) == ser(hd) + ser_list(tl));
        assert(s =~= ser(hd) + (ser_list(tl) + rest));
        lemma_parse_ser(hd, ser_list(tl) + rest);
        lemma_ser_len(hd);
        let k = ser(hd).len() as int;
        assert(parse(s) == Some((hd, k)));
        assert(1 <= k <= s.len());
        assert(s.subrange(k, s.len() as int) =~= ser_list(tl) + rest);
        assert forall|i: int| 0 <= i < tl.len() implies encodable(#[trigger] tl[i]) by {
            assert(tl[i] == items[i + 1]);
        }
        lemma_parse_list_ser(tl, rest);
        let k2 = ser_list(tl).len() as int;
        assert(parse_list(s.subrange(k, s.len() as int), items.len() as int - 1) == Some((tl, k2)));
        assert(seq![hd] + tl =~= items);
        assert(parse_list(s, items.len() as int) == Some((items, k + k2)));
        assert(ser_list(items).len() == k + k2);
    }
}

/// Round trip for serialized object entries.
#[verifier::rlimit(100)]
pub proof fn lemma_parse_entries_ser(entries: Seq<(Seq<char>, SpecTree)>, rest: Seq<u8>)
    requires
        forall|i: int|
            0 <= i < entries.len() ==> vstd::utf8::encode_utf8((#[trigger] entries[i]).0).len()
                < 0x1_0000_0000,
        forall|i: int| 0 <= i < entries.len() ==> encodable((#[trigger] entries[i]).1),
    ensures
        parse_entries(ser_entries(entries) + rest, entries.len() as int) == Some(
            (entries, ser_entries(entries).len() as int),
        ),
    decreases entries, 0int,
{
    if entries.len() == 0 {
        assert(entries =~= Seq::<(Seq<char>, SpecTree)>::empty());
    } else {
        let key = entries[0].0;
        let v = entries[0].1;
        let tl = entries.subrange(1, entries.len() as int);
        let s = ser_entries(entries) + rest;
        assert(ser_entries(entries) == ser_str(key) + ser(v) + ser_entries(tl));
        let after_key = ser(v) + (ser_entries(tl) + rest);
        assert(s =~= ser_str(key) + after_key);
        lemma_parse_ser_str(key, after_key);
        let k1 = ser_str(key).len() as int;
        assert(parse(s) == Some((SpecTree::Str(key), k1)));
        assert(ser_str(key).len() >= 1);
        assert(1 <= k1 <= s.len());
        assert(s.subrange(k1, s.len() as int) =~= ser(v) + (ser_entries(tl) + rest));
        lemma_parse_ser(v, ser_entries(tl) + rest);
        lemma_ser_len(v);
        let k2 = ser(v).len() as int;
        assert(parse(s.subrange(k1, s.len() as int)) == Some((v, k2)));
        assert(1 <= k2 <= s.len() - k1);
        assert(s.subrange(k1 + k2, s.len() as int) =~= ser_entries(tl) + rest);
        assert forall|i: int|
            0 <= i < tl.len() implies vstd::utf8::encode_utf8((#[trigger] tl[i]).0).len()
            < 0x1_0000_0000 && encodable(tl[i].1) by {
            assert(tl[i] == entries[i + 1]);
        }
        lemma_parse_entries_ser(tl, rest);
        let k3 = ser_entries(tl).len() as int;
        assert(parse_entries(s.subrange(k1 + k2, s.len() as int), entries.len() as int - 1)
            == Some((tl, k3)));
        assert(seq![(key, v)] + tl =~= entries);
        assert(parse_entries(s, entries.len() as int) == Some((entries, k1 + k2 + k3)));
        assert(ser_entries(entries).len() == k1 + k2 + k3);
    }
}

/// How the codec fails. Encoding and decoding are never partially
/// applied: a payload is either fully converted or rejected with one of
/// these.
#[derive(Debug)]
pub enum CodecError {
    /// The input could not be brought into the generic payload tree.
    SerializeFailure,
    /// The tree does not fit the wire format's length fields.
    EncodeFailure,
    /// The bytes are not a valid wire encoding.
    DecodeFailure,
    /// The decoded tree does not fit the caller's expected shape.
    SchemaMismatch,
}

/// Relies on `String::from_utf8`: returns the string whose UTF-8 bytes are
/// the input exactly when the input is valid UTF-8.
#[verifier::external_body]
fn string_from_utf8(bytes: Vec<u8>) -> (r: Option<String>)
    ensures
        r is Some <==> vstd::utf8::valid_utf8(bytes@),
        r matches Some(s) ==> s@ == vstd::utf8::decode_utf8(bytes@),
{
    String::from_utf8(bytes).ok()
}

/// Appends the four big-endian bytes of `x`.
fn push_be32(out: &mut Vec<u8>, x: u32)
    ensures
        final(out)@ == old(out)@ + be32(x),
{
    proof {
        assert((x >> 24) & 0xff < 256 && (x >> 16) & 0xff < 256 && (x >> 8) & 0xff < 256 && x
            & 0xff < 256) by (bit_vector);
    }
    out.push(((x >> 24) & 0xff) as u8);
    out.push(((x >> 16) & 0xff) as u8);
    out.push(((x >> 8) & 0xff) as u8);
    out.push((x & 0xff) as u8);
    proof {
        assert(out@ =~= old(out)@ + be32(x));
    }
}

/// Appends the eight big-endian bytes of `x`.
fn push_be64(out: &mut Vec<u8>, x: u64)
    ensures
        final(out)@ == old(out)@ + be64(x),
{
    proof {
        assert((x >> 56) & 0xff < 256 && (x >> 48) & 0xff < 256 && (x >> 40) & 0xff < 256 && (x
            >> 32) & 0xff < 256 && (x >> 24) & 0xff < 256 && (x >> 16) & 0xff < 256 && (x >> 8)
            & 0xff < 256 && x & 0xff < 256) by (bit_vector);
    }
    out.push(((x >> 56) & 0xff) as u8);
    out.push(((x >> 48) & 0xff) as u8);
    out.push(((x >> 40) & 0xff) as u8);
    out.push(((x >> 32) & 0xff) as u8);
    out.push(((x >> 24) & 0xff) as u8);
    out.push(((x >> 16) & 0xff) as u8);
    out.push(((x >> 8) & 0xff) as u8);
    out.push((x & 0xff) as u8);
    proof {
        assert(out@ =~= old(out)@ + be64(x));
    }
}

/// Whether a payload fits the wire format's length fields.
#[verifier::loop_isolation(false)]
pub fn check_encodable(v: &CanonValue) -> (b: bool)
    ensures
        b == encodable(v@),
    decreases v,
{
    match v {
        CanonValue::Null => true,
        CanonValue::Bool(_) => true,
        CanonValue::Int(_) => true,
        CanonValue::Str(s) => {
            let b = s.as_str().as_bytes_vec();
            (b.len() as u64) < 0x1_0000_0000u64
        }
        CanonValue::Arr(items) => {
            if !((items.len() as u64) < 0x1_0000_0000u64) {
                return false;
            }
            let ghost at = v@->Arr_0;
            let mut i: usize = 0;
            while i < items.len()
                invariant
                    i <= items@.len(),
                    forall|j: int| 0 <= j < i ==> encodable(#[trigger] at[j]),
                decreases items@.len() - i,
            {
                if !check_encodable(vstd::std_specs::vec::vec_index(items, i)) {
                    proof {
                        assert(!encodable(at[i as int]));
                        assert(!encodable(v@));
                    }
                    return false;
                }
                i = i + 1;
            }
            true
        }
        CanonValue::Obj(entries) => {
            if !((entries.len() as u64) < 0x1_0000_0000u64) {
                return false;
            }
            let ghost et = v@->Obj_0;
            let mut i: usize = 0;
            while i < entries.len()
                invariant
                    i <= entries@.len(),
                    forall|j: int|
                        0 <= j < i ==> vstd::utf8::encode_utf8((#[trigger] et[j]).0).len()
                            < 0x1_0000_0000,
                    forall|j: int| 0 <= j < i ==> encodable((#[trigger] et[j]).1),
                decreases entries@.len() - i,
            {
                let pair = vstd::std_specs::vec::vec_index(entries, i);
                let kb = pair.0.as_str().as_bytes_vec();
                proof {
                    assert(et[i as int] == (entries@[i as int].0@, entries@[i as int].1@));
                    assert(kb@ == vstd::utf8::encode_utf8(et[i as int].0));
                }
                if !((kb.len() as u64) < 0x1_0000_0000u64) {
                    proof {
                        assert(!encodable(v@));
                    }
                    return false;
                }
                if !check_encodable(&pair.1) {
                    proof {
                        assert(!encodable(et[i as int].1));
                        assert(!encodable(v@));
                    }
                    return false;
                }
                i = i + 1;
            }
            true
        }
    }
}

/// Appends one wire-encoded string.
fn encode_str_into(s: &String, out: &mut Vec<u8>)
    requires
        vstd::utf8::encode_utf8(s@).len() < 0x1_0000_0000,
    ensures
        final(out)@ == old(out)@ + ser_str(s@),
{
    let mut b = s.as_str().as_bytes_vec();
    let m = b.len();
    if m < 32 {
        out.push((0xa0 + m) as u8);
        out.append(&mut b);
        proof {
            assert(out@ =~= old(out)@ + ser_str(s@));
        }
    } else {
        out.push(0xdb);
        push_be32(out, m as u32);
        out.append(&mut b);
        proof {
            assert(out@ =~= old(out)@ + ser_str(s@));
        }
    }
}

/// Serialization appends elementwise.
proof fn lemma_ser_list_snoc(items: Seq<SpecTree>, x: SpecTree)
    ensures
        ser_list(items.push(x)) == ser_list(items) + ser(x),
    decreases items.len(),
{
    let p = items.push(x);
    if items.len() == 0 {
        assert(p[0] == x);
        assert(p.subrange(1, p.len() as int) =~= Seq::<SpecTree>::empty());
        assert(ser_list(p) == ser(p[0]) + ser_list(p.subrange(1, p.len() as int)));
        assert(ser_list(p.subrange(1, p.len() as int)) =~= Seq::<u8>::empty());
        assert(ser_list(p) =~= ser(x));
        assert(ser_list(items) + ser(x) =~= ser(x));
    } else {
        let tl = items.subrange(1, items.len() as int);
        assert(p[0] == items[0]);
        assert(p.subrange(1, p.len() as int) =~= tl.push(x));
        lemma_ser_list_snoc(tl, x);
        assert(ser_list(p) == ser(items[0]) + (ser_list(tl) + ser(x)));
        assert(ser(items[0]) + (ser_list(tl) + ser(x)) =~= (ser(items[0]) + ser_list(tl)) + ser(
            x,
        ));
    }
}

/// Serialization of entries appends entrywise.
proof fn lemma_ser_entries_snoc(entries: Seq<(Seq<char>, SpecTree)>, x: (Seq<char>, SpecTree))
    ensures
        ser_entries(entries.push(x)) == ser_entries(entries) + ser_str(x.0) + ser(x.1),
    decreases entries.len(),
{
    let p = entries.push(x);
    if entries.len() == 0 {
        assert(p[0] == x);
        assert(p.subrange(1, p.len() as int) =~= Seq::<(Seq<char>, SpecTree)>::empty());
        assert(ser_entries(p) == ser_str(p[0].0) + ser(p[0].1) + ser_entries(
            p.subrange(1, p.len() as int),
        ));
        assert(ser_entries(p.subrange(1, p.len() as int)) =~= Seq::<u8>::empty());
        assert(ser_entries(p) =~= ser_str(x.0) + ser(x.1));
        assert(ser_entries(entries) + ser_str(x.0) + ser(x.1) =~= ser_str(x.0) + ser(x.1));
    } else {
        let tl = entries.subrange(1, entries.len() as int);
        assert(p[0] == entries[0]);
        assert(p.subrange(1, p.len() as int) =~= tl.push(x));
        lemma_ser_entries_snoc(tl, x);
        assert(ser_entries(p) == ser_str(entries[0].0) + ser(entries[0].1) + (ser_entries(tl)
            + ser_str(x.0) + ser(x.1)));
        assert(ser_str(entries[0].0) + ser(entries[0].1) + (ser_entries(tl) + ser_str(x.0) + ser(
            x.1,
        )) =~= (ser_str(entries[0].0) + ser(entries[0].1) + ser_entries(tl)) + ser_str(x.0) + ser(
            x.1,
        ));
    }
}

/// Appends the wire bytes of one payload tree.
#[verifier::loop_isolation(false)]
#[verifier::rlimit(60)]
fn encode_tree_into(v: &CanonValue, out: &mut Vec<u8>)
    requires
        encodable(v@),
    ensures
        final(out)@ == old(out)@ + ser(v@),
    decreases v,
{
    match v {
        CanonValue::Null => {
            out.push(0xc0);
            proof {
                assert(out@ =~= old(out)@ + ser(v@));
            }
        }
        CanonValue::Bool(b) => {
            if *b {
                out.push(0xc3);
            } else {
                out.push(0xc2);
            }
            proof {
                assert(out@ =~= old(out)@ + ser(v@));
            }
        }
        CanonValue::Int(i) => {
            let iv = *i;
            if 0 <= iv && iv <= 127 {
                out.push(iv as u8);
                proof {
                    assert(out@ =~= old(out)@ + ser(v@));
                }
            } else if -32 <= iv && iv < 0 {
                out.push((iv + 256) as u8);
                proof {
                    assert(out@ =~= old(out)@ + ser(v@));
                }
            } else {
                out.push(0xd3);
                let x: u64 = if iv >= 0 {
                    iv as u64
                } else {
                    ((iv - i64::MIN) as u64) + 0x8000_0000_0000_0000u64
                };
                proof {
                    assert(x == u64_of_i64(iv as int));
                }
                push_be64(out, x);
                proof {
                    assert(out@ =~= old(out)@ + ser(v@));
                }
            }
        }
        CanonValue::Str(s) => {
            encode_str_into(s, out);
            proof {
                assert(ser(v@) == ser_str(s@));
            }
        }
        CanonValue::Arr(items) => {
            let ghost at = v@->Arr_0;
            let ghost base = out@;
            let n = items.len();
            if n < 16 {
                out.push((0x90 + n) as u8);
            } else {
                out.push(0xdd);
                push_be32(out, n as u32);
            }
            let ghost hdr = out@.subrange(base.len() as int, out@.len() as int);
            proof {
                assert(out@ =~= base + hdr);
            }
            let mut i: usize = 0;
            while i < n
                invariant
                    i <= n,
                    out@ == base + hdr + ser_list(at.subrange(0, i as int)),
                decreases n - i,
            {
                proof {
                    assert(encodable(at[i as int]));
                    assert(at.subrange(0, i + 1) =~= at.subrange(0, i as int).push(at[i as int]));
                    lemma_ser_list_snoc(at.subrange(0, i as int), at[i as int]);
                }
                encode_tree_into(vstd::std_specs::vec::vec_index(items, i), out);
                i = i + 1;
            }
            proof {
                assert(at.subrange(0, at.len() as int) =~= at);
                if n < 16 {
                    assert(hdr =~= seq![(0x90 + at.len()) as u8]);
                    assert(out@ =~= base + ser(v@));
                } else {
                    assert(hdr =~= seq![0xddu8] + be32(at.len() as u32));
                    assert(out@ =~= base + ser(v@));
                }
            }
        }
        CanonValue::Obj(entries) => {
            let ghost et = v@->Obj_0;
            let ghost base = out@;
            let n = entries.len();
            if n < 16 {
                out.push((0x80 + n) as u8);
            } else {
                out.push(0xdf);
                push_be32(out, n as u32);
            }
            let ghost hdr = out@.subrange(base.len() as int, out@.len() as int);
            proof {
                assert(out@ =~= base + hdr);
            }
            let mut i: usize = 0;
            while i < n
                invariant
                    i <= n,
                    out@ == base + hdr + ser_entries(et.subrange(0, i as int)),
                decreases n - i,
            {
                proof {
                    assert(et[i as int] == (entries@[i as int].0@, entries@[i as int].1@));
                    assert(encodable(et[i as int].1));
                    assert(vstd::utf8::encode_utf8(et[i as int].0).len() < 0x1_0000_0000);
                    assert(et.subrange(0, i + 1) =~= et.subrange(0, i as int).push(et[i as int]));
                    lemma_ser_entries_snoc(et.subrange(0, i as int), et[i as int]);
                }
                let pair = vstd::std_specs::vec::vec_index(entries, i);
                encode_str_into(&pair.0, out);
                encode_tree_into(&pair.1, out);
                proof {
                    assert(out@ =~= base + hdr + ser_entries(et.subrange(0, i + 1)));
                }
                i = i + 1;
            }
            proof {
                assert(et.subrange(0, et.len() as int) =~= et);
                if n < 16 {
                    assert(hdr =~= seq![(0x80 + et.len()) as u8]);
                    assert(out@ =~= base + ser(v@));
                } else {
                    assert(hdr =~= seq![0xdfu8] + be32(et.len() as u32));
                    assert(out@ =~= base + ser(v@));
                }
            }
        }
    }
}

/// Encodes a payload canonically: the payload is normalized, then written
/// in the wire format. Two well-formed payloads with equal semantic values
/// yield byte-identical encodings. Fails with `EncodeFailure` exactly when
/// some string, array or object exceeds the wire format's length fields.
pub fn encode_canonical(v: &CanonValue) -> (r: Result<Vec<u8>, CodecError>)
    requires
        v@.wf(),
    ensures
        canonical_tree(v@.model()).wf(),
        canonical_tree(v@.model()).keys_sorted(),
        canonical_tree(v@.model()).model() == v@.model(),
        (match r {
            Ok(bytes) => encodable(canonical_tree(v@.model())) && bytes@ == ser(
                canonical_tree(v@.model()),
            ),
            Err(e) => e == CodecError::EncodeFailure && !encodable(canonical_tree(v@.model())),
        }),
{
    let n = normalize(v);
    if !check_encodable(&n) {
        return Err(CodecError::EncodeFailure);
    }
    let mut out: Vec<u8> = Vec::new();
    encode_tree_into(&n, &mut out);
    proof {
        assert(out@ =~= ser(n@));
    }
    Ok(out)
}

/// The structural views of a sequence of decoded values.
pub open spec fn trees_of(s: Seq<CanonValue>) -> Seq<SpecTree> {
    Seq::new(s.len(), |i: int| s[i]@)
}

/// Decodes one tree starting at `pos`, mirroring [`parse`] on the byte
/// suffix; returns the value and the position just past its encoding.
#[verifier::loop_isolation(false)]
fn decode_at(bytes: &[u8], pos: usize) -> (r: Option<(CanonValue, usize)>)
    requires
        pos <= bytes@.len(),
    ensures
        (match r {
            Some(p) => pos < p.1 <= bytes@.len() && parse(
                bytes@.subrange(pos as int, bytes@.len() as int),
            ) == Some((p.0@, p.1 - pos as int)),
            None => parse(bytes@.subrange(pos as int, bytes@.len() as int)) is None,
        }),
    decreases bytes@.len() - pos, 0int,
{
    let len = bytes.len();
    let ghost s = bytes@.subrange(pos as int, len as int);
    if pos >= len {
        return None;
    }
    let b0 = *vstd::slice::slice_index_get(bytes, pos);
    proof {
        assert(s[0] == b0);
    }
    if b0 < 0x80 {
        Some((CanonValue::Int(b0 as i64), pos + 1))
    } else if b0 < 0x90 {
        let n = (b0 - 0x80) as usize;
        proof {
            assert(s.subrange(1, s.len() as int) =~= bytes@.subrange(pos + 1, len as int));
        }
        match decode_entries(bytes, pos + 1, n) {
            Some(p) => {
                let (es, end) = p;
                let r = CanonValue::Obj(es);
                proof {
                    assert(r@->Obj_0 =~= entries_tree(es@));
                    assert(parse(s) == Some((r@, end - pos as int)));
                }
                Some((r, end))
            }
            None => None,
        }
    } else if b0 < 0xa0 {
        let n = (b0 - 0x90) as usize;
        proof {
            assert(s.subrange(1, s.len() as int) =~= bytes@.subrange(pos + 1, len as int));
        }
        match decode_list(bytes, pos + 1, n) {
            Some(p) => {
                let (items, end) = p;
                let r = CanonValue::Arr(items);
                proof {
                    assert(r@->Arr_0 =~= trees_of(items@));
                    assert(parse(s) == Some((r@, end - pos as int)));
                }
                Some((r, end))
            }
            None => None,
        }
    } else if b0 < 0xc0 {
        let n = (b0 - 0xa0) as usize;
        if len - (pos + 1) < n {
            return None;
        }
        let sub = vstd::slice::slice_subrange(bytes, pos + 1, pos + 1 + n);
        let bvec = vstd::slice::slice_to_vec(sub);
        proof {
            assert(bvec@ =~= s.subrange(1, 1 + n as int));
        }
        match string_from_utf8(bvec) {
            Some(st) => {
                let r = CanonValue::Str(st);
                proof {
                    assert(parse(s) == Some((r@, 1 + n as int)));
                }
                Some((r, pos + 1 + n))
            }
            None => None,
        }
    } else if b0 == 0xc0 {
        Some((CanonValue::Null, pos + 1))
    } else if b0 == 0xc2 {
        Some((CanonValue::Bool(false), pos + 1))
    } else if b0 == 0xc3 {
        Some((CanonValue::Bool(true), pos + 1))
    } else if b0 == 0xd3 {
        if len - pos < 9 {
            return None;
        }
        let b1 = *vstd::slice::slice_index_get(bytes, pos + 1);
        let b2 = *vstd::slice::slice_index_get(bytes, pos + 2);
        let b3 = *vstd::slice::slice_index_get(bytes, pos + 3);
        let b4 = *vstd::slice::slice_index_get(bytes, pos + 4);
        let b5 = *vstd::slice::slice_index_get(bytes, pos + 5);
        let b6 = *vstd::slice::slice_index_get(bytes, pos + 6);
        let b7 = *vstd::slice::slice_index_get(bytes, pos + 7);
        let b8 = *vstd::slice::slice_index_get(bytes, pos + 8);
        let x: u64 = ((b1 as u64) << 56) | ((b2 as u64) << 48) | ((b3 as u64) << 40) | ((b4
            as u64) << 32) | ((b5 as u64) << 24) | ((b6 as u64) << 16) | ((b7 as u64) << 8) | (
        b8 as u64);
        let i: i64 = if x < 0x8000_0000_0000_0000u64 {
            x as i64
        } else {
            ((x - 0x8000_0000_0000_0000u64) as i64) + i64::MIN
        };
        proof {
            assert(s[1] == b1 && s[2] == b2 && s[3] == b3 && s[4] == b4);
            assert(s[5] == b5 && s[6] == b6 && s[7] == b7 && s[8] == b8);
            assert(x == from_be64(s[1], s[2], s[3], s[4], s[5], s[6], s[7], s[8]));
            assert(i as int == i64_of_u64(x));
        }
        Some((CanonValue::Int(i), pos + 9))
    } else if b0 == 0xdb || b0 == 0xdd || b0 == 0xdf {
        if len - pos < 5 {
            return None;
        }
        let b1 = *vstd::slice::slice_index_get(bytes, pos + 1);
        let b2 = *vstd::slice::slice_index_get(bytes, pos + 2);
        let b3 = *vstd::slice::slice_index_get(bytes, pos + 3);
        let b4 = *vstd::slice::slice_index_get(bytes, pos + 4);
        let m: u32 = ((b1 as u32) << 24) | ((b2 as u32) << 16) | ((b3 as u32) << 8) | (b4 as u32);
        let n = m as usize;
        proof {
            assert(s[1] == b1 && s[2] == b2 && s[3] == b3 && s[4] == b4);
            assert(m == from_be32(s[1], s[2], s[3], s[4]));
        }
        if b0 == 0xdb {
            if len - (pos + 5) < n {
                return None;
            }
            let sub = vstd::slice::slice_subrange(bytes, pos + 5, pos + 5 + n);
            let bvec = vstd::slice::slice_to_vec(sub);
            proof {
                assert(bvec@ =~= s.subrange(5, 5 + n as int));
            }
            match string_from_utf8(bvec) {
                Some(st) => {
                    let r = CanonValue::Str(st);
                    proof {
                        assert(parse(s) == Some((r@, 5 + n as int)));
                    }
                    Some((r, pos + 5 + n))
                }
                None => None,
            }
        } else if b0 == 0xdd {
            proof {
                assert(s.subrange(5, s.len() as int) =~= bytes@.subrange(pos + 5, len as int));
            }
            match decode_list(bytes, pos + 5, n) {
                Some(p) => {
                    let (items, end) = p;
                    let r = CanonValue::Arr(items);
                    proof {
                        assert(r@->Arr_0 =~= trees_of(items@));
                        assert(parse(s) == Some((r@, end - pos as int)));
                    }
                    Some((r, end))
                }
                None => None,
            }
        } else {
            proof {
                assert(s.subrange(5, s.len() as int) =~= bytes@.subrange(pos + 5, len as int));
            }
            match decode_entries(bytes, pos + 5, n) {
                Some(p) => {
                    let (es, end) = p;
                    let r = CanonValue::Obj(es);
                    proof {
                        assert(r@->Obj_0 =~= entries_tree(es@));
                        assert(parse(s) == Some((r@, end - pos as int)));
                    }
                    Some((r, end))
                }
                None => None,
            }
        }
    } else if b0 >= 0xe0 {
        Some((CanonValue::Int(b0 as i64 - 256), pos + 1))
    } else {
        None
    }
}

/// Decodes `n` consecutive trees starting at `start`.
#[verifier::loop_isolation(false)]
fn decode_list(bytes: &[u8], start: usize, n: usize) -> (r: Option<(Vec<CanonValue>, usize)>)
    requires
        start <= bytes@.len(),
    ensures
        (match r {
            Some(p) => start <= p.1 <= bytes@.len() && parse_list(
                bytes@.subrange(start as int, bytes@.len() as int),
                n as int,
            ) == Some((trees_of(p.0@), p.1 - start as int)),
            None => parse_list(bytes@.subrange(start as int, bytes@.len() as int), n as int)
                is None,
        }),
    decreases bytes@.len() - start, 1int,
{
    let len = bytes.len();
    let ghost s0 = bytes@.subrange(start as int, len as int);
    let mut out: Vec<CanonValue> = Vec::new();
    let mut cur: usize = start;
    let mut count: usize = 0;
    proof {
        assert(trees_of(out@) =~= Seq::<SpecTree>::empty());
    }
    while count < n
        invariant
            start <= cur <= len,
            out@.len() == count,
            count <= n,
            (match parse_list(
                bytes@.subrange(cur as int, len as int),
                n as int - count as int,
            ) {
                Some(q) => parse_list(s0, n as int) == Some(
                    (trees_of(out@) + q.0, (cur - start) + q.1),
                ),
                None => parse_list(s0, n as int) is None,
            }),
        decreases n - count,
    {
        let ghost sc = bytes@.subrange(cur as int, len as int);
        match decode_at(bytes, cur) {
            Some(p) => {
                let (v, end) = p;
                proof {
                    let m = n as int - count as int;
                    assert(parse(sc) == Some((v@, end - cur as int)));
                    assert(1 <= end - cur as int <= sc.len());
                    assert(sc.subrange(end - cur as int, sc.len() as int) =~= bytes@.subrange(
                        end as int,
                        len as int,
                    ));
                    let tail = parse_list(bytes@.subrange(end as int, len as int), m - 1);
                    if tail is Some {
                        let q2 = tail->Some_0;
                        assert(parse_list(sc, m) == Some(
                            (seq![v@] + q2.0, (end - cur as int) + q2.1),
                        ));
                        assert(trees_of(out@.push(v)) =~= trees_of(out@).push(v@));
                        assert(trees_of(out@) + (seq![v@] + q2.0) =~= trees_of(out@).push(v@)
                            + q2.0);
                    } else {
                        assert(parse_list(sc, m) is None);
                    }
                }
                out.push(v);
                cur = end;
                count = count + 1;
            }
            None => {
                proof {
                    assert(parse(sc) is None);
                    assert(parse_list(sc, n as int - count as int) is None);
                }
                return None;
            }
        }
    }
    proof {
        assert(parse_list(bytes@.subrange(cur as int, len as int), 0) == Some(
            (Seq::<SpecTree>::empty(), 0int),
        ));
        assert(trees_of(out@) + Seq::<SpecTree>::empty() =~= trees_of(out@));
    }
    Some((out, cur))
}

/// Decodes `n` consecutive key-value pairs starting at `start`.
#[verifier::loop_isolation(false)]
fn decode_entries(bytes: &[u8], start: usize, n: usize) -> (r: Option<
    (Vec<(String, CanonValue)>, usize),
>)
    requires
        start <= bytes@.len(),
    ensures
        (match r {
            Some(p) => start <= p.1 <= bytes@.len() && parse_entries(
                bytes@.subrange(start as int, bytes@.len() as int),
                n as int,
            ) == Some((entries_tree(p.0@), p.1 - start as int)),
            None => parse_entries(bytes@.subrange(start as int, bytes@.len() as int), n as int)
                is None,
        }),
    decreases bytes@.len() - start, 1int,
{
    let len = bytes.len();
    let ghost s0 = bytes@.subrange(start as int, len as int);
    let mut out: Vec<(String, CanonValue)> = Vec::new();
    let mut cur: usize = start;
    let mut count: usize = 0;
    proof {
        assert(entries_tree(out@) =~= Seq::<(Seq<char>, SpecTree)>::empty());
    }
    while count < n
        invariant
            start <= cur <= len,
            out@.len() == count,
            count <= n,
            (match parse_entries(
                bytes@.subrange(cur as int, len as int),
                n as int - count as int,
            ) {
                Some(q) => parse_entries(s0, n as int) == Some(
                    (entries_tree(out@) + q.0, (cur - start) + q.1),
                ),
                None => parse_entries(s0, n as int) is None,
            }),
        decreases n - count,
    {
        let ghost sc = bytes@.subrange(cur as int, len as int);
        let key = match decode_at(bytes, cur) {
            Some(p) => p,
            None => {
                proof {
                    assert(parse(sc) is None);
                    assert(parse_entries(sc, n as int - count as int) is None);
                }
                return None;
            }
        };
        let (kv, kend) = key;
        let k = match kv {
            CanonValue::Str(k) => k,
            _ => {
                proof {
                    assert(!(kv@ is Str));
                    assert(parse_entries(sc, n as int - count as int) is None);
                }
                return None;
            }
        };
        proof {
            assert(sc.subrange(kend - cur as int, sc.len() as int) =~= bytes@.subrange(
                kend as int,
                len as int,
            ));
        }
        let ghost sv = bytes@.subrange(kend as int, len as int);
        let value = match decode_at(bytes, kend) {
            Some(p) => p,
            None => {
                proof {
                    assert(parse(sv) is None);
                    assert(parse_entries(sc, n as int - count as int) is None);
                }
                return None;
            }
        };
        let (vv, vend) = value;
        proof {
            let m = n as int - count as int;
            assert(parse(sc) == Some((kv@, kend - cur as int)));
            assert(kv@ == SpecTree::Str(k@));
            assert(parse(sv) == Some((vv@, vend - kend as int)));
            assert(1 <= vend - kend as int <= sc.len() - (kend - cur as int));
            assert(sc.subrange(
                (kend - cur as int) + (vend - kend as int),
                sc.len() as int,
            ) =~= bytes@.subrange(vend as int, len as int));
            let tail = parse_entries(bytes@.subrange(vend as int, len as int), m - 1);
            if tail is Some {
                let q2 = tail->Some_0;
                assert(parse_entries(sc, m) == Some(
                    (seq![(k@, vv@)] + q2.0, (vend - cur as int) + q2.1),
                ));
                assert(entries_tree(out@.push((k, vv))) =~= entries_tree(out@).push((k@, vv@)));
                assert(entries_tree(out@) + (seq![(k@, vv@)] + q2.0) =~= entries_tree(out@).push(
                    (k@, vv@),
                ) + q2.0);
            } else {
                assert(parse_entries(sc, m) is None);
            }
        }
        out.push((k, vv));
        cur = vend;
        count = count + 1;
    }
    proof {
        assert(parse_entries(bytes@.subrange(cur as int, len as int), 0) == Some(
            (Seq::<(Seq<char>, SpecTree)>::empty(), 0int),
        ));
        assert(entries_tree(out@) + Seq::<(Seq<char>, SpecTree)>::empty() =~= entries_tree(out@));
    }
    Some((out, cur))
}

/// Decodes one canonically encoded payload. Fails with `DecodeFailure`
/// exactly when the bytes are not one complete wire encoding.
pub fn decode_canonical(bytes: &[u8]) -> (r: Result<CanonValue, CodecError>)
    ensures
        (match r {
            Ok(v) => parse(bytes@) == Some((v@, bytes@.len() as int)),
            Err(e) => e == CodecError::DecodeFailure && (match parse(bytes@) {
                Some(p) => p.1 != bytes@.len(),
                None => true,
            }),
        }),
{
    proof {
        assert(bytes@.subrange(0, bytes@.len() as int) =~= bytes@);
    }
    match decode_at(bytes, 0) {
        Some(p) => {
            let (v, end) = p;
            if end == bytes.len() {
                Ok(v)
            } else {
                Err(CodecError::DecodeFailure)
            }
        }
        None => Err(CodecError::DecodeFailure),
    }
}

/// Round trip: the bytes produced by a successful canonical encoding parse
/// back to the canonical tree of the encoded payload, consuming all bytes;
/// that tree's semantic value is the payload's. Hence decoding an encoding
/// yields a value semantically equal to the one encoded, and encoding is
/// invariant under reordering of object keys at any depth.
pub proof fn lemma_decode_inverts_encode(v: CanonValue, bytes: Seq<u8>)
    requires
        v@.wf(),
        encodable(canonical_tree(v@.model())),
        bytes == ser(canonical_tree(v@.model())),
    ensures
        parse(bytes) == Some((canonical_tree(v@.model()), bytes.len() as int)),
{
    lemma_parse_ser(canonical_tree(v@.model()), Seq::empty());
    assert(ser(canonical_tree(v@.model())) + Seq::<u8>::empty() =~= ser(
        canonical_tree(v@.model()),
    ));
}

/// Structural equality of two payload trees.
#[verifier::loop_isolation(false)]
pub fn tree_eq(a: &CanonValue, b: &CanonValue) -> (r: bool)
    ensures
        r == (a@ == b@),
    decreases a,
{
    match (a, b) {
        (CanonValue::Null, CanonValue::Null) => true,
        (CanonValue::Bool(x), CanonValue::Bool(y)) => x == y,
        (CanonValue::Int(x), CanonValue::Int(y)) => x == y,
        (CanonValue::Str(x), CanonValue::Str(y)) => crate::util::str_eq(x.as_str(), y.as_str()),
        (CanonValue::Arr(xs), CanonValue::Arr(ys)) => {
            let ghost at = a@->Arr_0;
            let ghost bt = b@->Arr_0;
            if xs.len() != ys.len() {
                proof {
                    assert(at.len() != bt.len());
                }
                return false;
            }
            let n = xs.len();
            let mut i: usize = 0;
            while i < n
                invariant
                    i <= n,
                    forall|j: int| 0 <= j < i ==> #[trigger] at[j] == bt[j],
                decreases n - i,
            {
                if !tree_eq(
                    vstd::std_specs::vec::vec_index(xs, i),
                    vstd::std_specs::vec::vec_index(ys, i),
                ) {
                    proof {
                        assert(at[i as int] != bt[i as int]);
                    }
                    return false;
                }
                i = i + 1;
            }
            proof {
                assert(at =~= bt);
            }
            true
        }
        (CanonValue::Obj(xs), CanonValue::Obj(ys)) => {
            let ghost at = a@->Obj_0;
            let ghost bt = b@->Obj_0;
            if xs.len() != ys.len() {
                proof {
                    assert(at.len() != bt.len());
                }
                return false;
            }
            let n = xs.len();
            let mut i: usize = 0;
            while i < n
                invariant
                    i <= n,
                    forall|j: int| 0 <= j < i ==> #[trigger] at[j] == bt[j],
                decreases n - i,
            {
                let px = vstd::std_specs::vec::vec_index(xs, i);
                let py = vstd::std_specs::vec::vec_index(ys, i);
                if !crate::util::str_eq(px.0.as_str(), py.0.as_str()) {
                    proof {
                        assert(at[i as int].0 != bt[i as int].0);
                        assert(at[i as int] != bt[i as int]);
                    }
                    return false;
                }
                if !tree_eq(&px.1, &py.1) {
                    proof {
                        assert(at[i as int].1 != bt[i as int].1);
                        assert(at[i as int] != bt[i as int]);
                    }
                    return false;
                }
                proof {
                    assert(at[i as int] == (px.0@, px.1@));
                    assert(bt[i as int] == (py.0@, py.1@));
                }
                i = i + 1;
            }
            proof {
                assert(at =~= bt);
            }
            true
        }
        _ => {
            proof {
                assert(a@ != b@);
            }
            false
        }
    }
}

/// Semantic equality of two well-formed payloads: equal up to object key
/// order at any depth.
pub fn canon_eq(a: &CanonValue, b: &CanonValue) -> (r: bool)
    requires
        a@.wf(),
        b@.wf(),
    ensures
        r == (a@.model() == b@.model()),
{
    let na = normalize(a);
    let nb = normalize(b);
    let r = tree_eq(&na, &nb);
    proof {
        if na@ == nb@ {
            assert(a@.model() == b@.model());
        }
        if a@.model() == b@.model() {
            assert(na@ == nb@);
        }
    }
    r
}

/// Key-order invariance: two well-formed payloads with equal semantic
/// values have the same canonical tree, so their canonical encodings are
/// byte-identical.
pub proof fn lemma_encode_key_order_invariant(v1: CanonValue, v2: CanonValue)
    requires
        v1@.wf(),
        v2@.wf(),
        v1@.model() == v2@.model(),
    ensures
        canonical_tree(v1@.model()) == canonical_tree(v2@.model()),
        ser(canonical_tree(v1@.model())) == ser(canonical_tree(v2@.model())),
{
}

} // verus!
