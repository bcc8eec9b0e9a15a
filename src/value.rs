use vstd::prelude::*;

verus! {

/// The mathematical model of a decoded value. A dictionary is its entries in
/// ascending key order, each key once.
pub enum Val {
    Int(int),
    Bytes(Seq<u8>),
    List(Seq<Val>),
    Dict(Seq<(Seq<u8>, Val)>),
}

/// A decoded value. A dictionary holds its entries sorted by key, without
/// repeated keys, so that two dictionaries with the same mapping are equal.
#[derive(Debug, PartialEq, Eq)]
pub enum BencodeValue {
    Int(i64),
    ByteStr(Vec<u8>),
    List(Vec<BencodeValue>),
    Dict(Vec<(Vec<u8>, BencodeValue)>),
}

pub open spec fn model_of(v: BencodeValue) -> Val
    decreases v,
{
    match v {
        BencodeValue::Int(n) => Val::Int(n as int),
        BencodeValue::ByteStr(b) => Val::Bytes(b@),
        BencodeValue::List(items) => Val::List(
            Seq::new(
                items.len() as nat,
                |i: int|
                    if 0 <= i < items.len() {
                        model_of(items[i])
                    } else {
                        Val::Int(0)
                    },
            ),
        ),
        BencodeValue::Dict(entries) => Val::Dict(
            Seq::new(
                entries.len() as nat,
                |i: int|
                    if 0 <= i < entries.len() {
                        (entries[i].0@, model_of(entries[i].1))
                    } else {
                        (Seq::empty(), Val::Int(0))
                    },
            ),
        ),
    }
}

impl View for BencodeValue {
    type V = Val;

    open spec fn view(&self) -> Val {
        model_of(*self)
    }
}

/// The models of a sequence of values.
pub open spec fn models(s: Seq<BencodeValue>) -> Seq<Val> {
    Seq::new(s.len(), |i: int| s[i]@)
}

/// The models of a sequence of dictionary entries.
pub open spec fn entry_models(s: Seq<(Vec<u8>, BencodeValue)>) -> Seq<(Seq<u8>, Val)> {
    Seq::new(s.len(), |i: int| (s[i].0@, s[i].1@))
}

pub proof fn lemma_list_model(items: Vec<BencodeValue>)
    ensures
        BencodeValue::List(items)@ == Val::List(models(items@)),
{
    let v = BencodeValue::List(items);
    let s = v@->List_0;
    assert(s.len() == items.len());
    assert forall|i: int| 0 <= i < items.len() implies s[i] == models(items@)[i] by {
        assert(s[i] == model_of(items[i]));
    }
    assert(s =~= models(items@));
}

pub proof fn lemma_dict_model(entries: Vec<(Vec<u8>, BencodeValue)>)
    ensures
        BencodeValue::Dict(entries)@ == Val::Dict(entry_models(entries@)),
{
    let v = BencodeValue::Dict(entries);
    let s = v@->Dict_0;
    assert(s.len() == entries.len());
    assert forall|i: int| 0 <= i < entries.len() implies s[i] == entry_models(entries@)[i] by {
        assert(s[i] == (entries[i].0@, model_of(entries[i].1)));
    }
    assert(s =~= entry_models(entries@));
}

/// Byte-wise lexicographic order on keys, a proper prefix coming first.
pub open spec fn key_lt(a: Seq<u8>, b: Seq<u8>) -> bool
    decreases a.len(),
{
    if a.len() == 0 {
        b.len() > 0
    } else if b.len() == 0 {
        false
    } else if a[0] != b[0] {
        a[0] < b[0]
    } else {
        key_lt(a.drop_first(), b.drop_first())
    }
}

pub proof fn lemma_key_lt_irreflexive(a: Seq<u8>)
    ensures
        !key_lt(a, a),
    decreases a.len(),
{
    if a.len() > 0 {
        lemma_key_lt_irreflexive(a.drop_first());
    }
}

pub proof fn lemma_key_lt_asymmetric(a: Seq<u8>, b: Seq<u8>)
    ensures
        key_lt(a, b) ==> !key_lt(b, a),
    decreases a.len(),
{
    if a.len() > 0 && b.len() > 0 && a[0] == b[0] {
        lemma_key_lt_asymmetric(a.drop_first(), b.drop_first());
    }
}

proof fn lemma_key_lt_common_prefix(a: Seq<u8>, b: Seq<u8>, i: int)
    requires
        0 <= i <= a.len(),
        i <= b.len(),
        a.take(i) == b.take(i),
    ensures
        key_lt(a, b) == key_lt(a.skip(i), b.skip(i)),
    decreases i,
{
    if i > 0 {
        assert(a[0] == a.take(i)[0]);
        assert(b[0] == b.take(i)[0]);
        assert(a.drop_first().take(i - 1) =~= a.take(i).drop_first());
        assert(b.drop_first().take(i - 1) =~= b.take(i).drop_first());
        lemma_key_lt_common_prefix(a.drop_first(), b.drop_first(), i - 1);
        assert(a.drop_first().skip(i - 1) =~= a.skip(i));
        assert(b.drop_first().skip(i - 1) =~= b.skip(i));
    } else {
        assert(a.skip(0) =~= a);
        assert(b.skip(0) =~= b);
    }
}

/// Compares two keys: negative, zero or positive as `a` comes before, equals
/// or comes after `b`.
pub fn compare_keys(a: &[u8], b: &[u8]) -> (r: i8)
    ensures
        r < 0 <==> key_lt(a@, b@),
        r == 0 <==> a@ == b@,
        r > 0 <==> key_lt(b@, a@),
{
    let mut i: usize = 0;
    while i < a.len() && i < b.len() && a[i] == b[i]
        invariant
            i <= a.len(),
            i <= b.len(),
            a@.take(i as int) == b@.take(i as int),
        decreases a.len() - i,
    {
        assert(a@.take(i + 1) =~= a@.take(i as int).push(a@[i as int]));
        assert(b@.take(i + 1) =~= b@.take(i as int).push(b@[i as int]));
        i = i + 1;
    }
    proof {
        lemma_key_lt_common_prefix(a@, b@, i as int);
        lemma_key_lt_common_prefix(b@, a@, i as int);
        lemma_key_lt_asymmetric(a@, b@);
        lemma_key_lt_irreflexive(a@);
        if i == a.len() && i == b.len() {
            assert(a@ =~= a@.take(i as int));
            assert(b@ =~= b@.take(i as int));
        } else {
            if a@ == b@ {
                assert(a@[i as int] == b@[i as int]);
            }
        }
    }
    if i == a.len() {
        if i == b.len() {
            0
        } else {
            -1
        }
    } else if i == b.len() {
        1
    } else if a[i] < b[i] {
        -1
    } else {
        1
    }
}

/// The entries `s` after setting key `k` to `v`: an entry with key `k` is
/// replaced, otherwise the new entry goes before the first larger key.
pub open spec fn dict_put(s: Seq<(Seq<u8>, Val)>, k: Seq<u8>, v: Val) -> Seq<(Seq<u8>, Val)>
    decreases s.len(),
{
    if s.len() == 0 {
        seq![(k, v)]
    } else if s[0].0 == k {
        s.update(0, (k, v))
    } else if key_lt(k, s[0].0) {
        seq![(k, v)] + s
    } else {
        seq![s[0]] + dict_put(s.drop_first(), k, v)
    }
}

proof fn lemma_dict_put_skip(s: Seq<(Seq<u8>, Val)>, k: Seq<u8>, v: Val, i: int)
    requires
        0 <= i <= s.len(),
        forall|j: int| 0 <= j < i ==> s[j].0 != k && !key_lt(k, #[trigger] s[j].0),
    ensures
        dict_put(s, k, v) == s.take(i) + dict_put(s.skip(i), k, v),
    decreases i,
{
    if i > 0 {
        lemma_dict_put_skip(s.drop_first(), k, v, i - 1);
        assert(s.drop_first().skip(i - 1) =~= s.skip(i));
        assert(s.take(i) + dict_put(s.skip(i), k, v) =~= seq![s[0]] + (s.drop_first().take(i - 1)
            + dict_put(s.skip(i), k, v)));
    } else {
        assert(s.skip(0) =~= s);
        assert(s.take(0) + dict_put(s, k, v) =~= dict_put(s, k, v));
    }
}

/// Sets key `k` to `v` in sorted entries, keeping them sorted.
pub fn dict_insert(entries: &mut Vec<(Vec<u8>, BencodeValue)>, k: Vec<u8>, v: BencodeValue)
    ensures
        entry_models(final(entries)@) == dict_put(entry_models(old(entries)@), k@, v@),
{
    let ghost s = entry_models(entries@);
    let ghost kv = (k@, v@);
    let mut i: usize = 0;
    while i < entries.len()
        invariant
            i <= entries.len(),
            entries@ == old(entries)@,
            s == entry_models(entries@),
            kv == (k@, v@),
            forall|j: int| 0 <= j < i ==> s[j].0 != k@ && !key_lt(k@, #[trigger] s[j].0),
        decreases entries.len() - i,
    {
        let c = compare_keys(entries[i].0.as_slice(), k.as_slice());
        if c == 0 {
            proof {
                lemma_dict_put_skip(s, k@, v@, i as int);
            }
            entries.set(i, (k, v));
            assert(entry_models(entries@) =~= s.take(i as int) + s.skip(i as int).update(0, kv));
            return;
        } else if c > 0 {
            proof {
                lemma_dict_put_skip(s, k@, v@, i as int);
            }
            entries.insert(i, (k, v));
            assert(entry_models(entries@) =~= s.take(i as int) + (seq![kv] + s.skip(i as int)));
            return;
        }
        proof {
            lemma_key_lt_asymmetric(entries@[i as int].0@, k@);
        }
        i = i + 1;
    }
    proof {
        lemma_dict_put_skip(s, k@, v@, i as int);
        assert(s.take(i as int) =~= s);
    }
    entries.push((k, v));
    assert(entry_models(entries@) =~= s + seq![kv]);
}

/// The entries that setting each pair of `s` in turn, first to last, gives
/// from none: sorted, each key once with its last value.
pub open spec fn put_all(s: Seq<(Seq<u8>, Val)>) -> Seq<(Seq<u8>, Val)>
    decreases s.len(),
{
    if s.len() == 0 {
        Seq::empty()
    } else {
        dict_put(put_all(s.drop_last()), s.last().0, s.last().1)
    }
}

impl BencodeValue {
    /// A dictionary with the given key/value pairs; a repeated key keeps
    /// its last value.
    pub fn dict_from(pairs: Vec<(Vec<u8>, BencodeValue)>) -> (r: BencodeValue)
        ensures
            r@ == Val::Dict(put_all(entry_models(pairs@))),
    {
        let ghost orig = entry_models(pairs@);
        let n0 = pairs.len();
        let mut pending = pairs;
        // Reversed, so that popping hands the pairs out in their order.
        let mut rev: Vec<(Vec<u8>, BencodeValue)> = Vec::new();
        while pending.len() > 0
            invariant
                n0 == orig.len(),
                entry_models(pending@) == orig.take(pending.len() as int),
                rev.len() + pending.len() == n0,
                forall|j: int|
                    0 <= j < rev.len() ==> #[trigger] entry_models(rev@)[j] == orig[n0 - 1 - j],
            decreases pending.len(),
        {
            let ghost before = pending@;
            let ghost rev_before = rev@;
            let x = pending.pop().unwrap();
            assert(entry_models(before)[pending.len() as int] == (x.0@, x.1@));
            rev.push(x);
            assert(entry_models(pending@) =~= orig.take(pending.len() as int));
            assert(entry_models(rev@)[rev.len() - 1] == (x.0@, x.1@));
            assert(forall|j: int|
                0 <= j < rev.len() - 1 ==> #[trigger] entry_models(rev@)[j] == entry_models(
                    rev_before,
                )[j]);
        }
        let mut entries: Vec<(Vec<u8>, BencodeValue)> = Vec::new();
        let mut done: usize = 0;
        assert(entry_models(entries@) =~= put_all(orig.take(0)));
        while rev.len() > 0
            invariant
                n0 == orig.len(),
                rev.len() + done == n0,
                forall|j: int|
                    0 <= j < rev.len() ==> #[trigger] entry_models(rev@)[j] == orig[n0 - 1 - j],
                entry_models(entries@) == put_all(orig.take(done as int)),
            decreases rev.len(),
        {
            let ghost before = rev@;
            let (k, v) = rev.pop().unwrap();
            assert(entry_models(before)[rev.len() as int] == (k@, v@));
            assert(forall|j: int|
                0 <= j < rev.len() ==> #[trigger] entry_models(rev@)[j] == entry_models(before)[j]);
            assert(orig.take(done + 1).drop_last() =~= orig.take(done as int));
            dict_insert(&mut entries, k, v);
            done = done + 1;
        }
        proof {
            assert(orig.take(done as int) =~= orig);
            lemma_dict_model(entries);
        }
        BencodeValue::Dict(entries)
    }
}

} // verus!
