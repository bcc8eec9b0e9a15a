use vstd::prelude::*;
use crate::error::DecodeError;
use crate::scalar::{int_scan, int_spec, DIGIT_ZERO, END, INT_START, MINUS};
use crate::scalar::{bytestr_spec, is_digit};
use crate::decoder::{
    decode_post,
    decode_spec,
    dict_items_ok,
    dict_of,
    initial_stack,
    lemma_step_advances,
    push_item,
    run,
    step,
    Frame,
    ScopeType,
};
use crate::value::{dict_put, key_lt, lemma_key_lt_asymmetric, models, BencodeValue, Val};

verus! {

/// The decimal digits of `m`, most significant first, without leading zeros.
pub open spec fn decimal(m: nat) -> Seq<u8>
    decreases m,
{
    if m < 10 {
        seq![(DIGIT_ZERO + m) as u8]
    } else {
        decimal(m / 10).push((DIGIT_ZERO + m % 10) as u8)
    }
}

/// The canonical encoding `i<digits>e` of the integer `n`.
pub open spec fn int_text(n: int) -> Seq<u8> {
    let body = if n < 0 {
        seq![MINUS] + decimal((-n) as nat)
    } else {
        decimal(n as nat)
    };
    seq![INT_START] + body + seq![END]
}

proof fn lemma_decimal_len(m: nat)
    ensures
        decimal(m).len() >= 1,
    decreases m,
{
    if m >= 10 {
        lemma_decimal_len(m / 10);
    }
}

proof fn lemma_scan_decimal(buf: Seq<u8>, start: int, p0: int, neg: bool, m: nat)
    requires
        0 <= start < p0,
        p0 + decimal(m).len() <= buf.len(),
        buf.subrange(p0, p0 + decimal(m).len()) == decimal(m),
        neg ==> -m >= i64::MIN,
        !neg ==> m <= i64::MAX,
    ensures
        int_scan(buf, start, p0, neg, 0, 0) == int_scan(
            buf,
            start,
            p0 + decimal(m).len(),
            neg,
            decimal(m).len(),
            if neg {
                -m
            } else {
                m as int
            },
        ),
    decreases m,
{
    let d = decimal(m);
    if m < 10 {
        assert(buf[p0] == d[0]);
    } else {
        let q = m / 10;
        let dq = decimal(q);
        lemma_decimal_len(q);
        assert(buf.subrange(p0, p0 + dq.len()) =~= dq) by {
            assert forall|j: int| 0 <= j < dq.len() implies buf.subrange(p0, p0 + dq.len())[j]
                == dq[j] by {
                assert(buf.subrange(p0, p0 + d.len())[j] == d[j]);
            }
        }
        lemma_scan_decimal(buf, start, p0, neg, q);
        assert(buf[p0 + dq.len()] == buf.subrange(p0, p0 + d.len())[dq.len() as int]);
        assert(q * 10 + m % 10 == m);
    }
}

/// An integer's canonical encoding decodes to that integer and is used up
/// exactly; as a whole buffer it decodes to that one integer.
pub proof fn law_int_round_trip(n: i64)
    ensures
        int_spec(int_text(n as int), 0) == Ok::<(int, nat), DecodeError>(
            (n as int, int_text(n as int).len()),
        ),
        decode_spec(int_text(n as int)) == Ok::<Seq<Val>, DecodeError>(seq![Val::Int(n as int)]),
{
    let buf = int_text(n as int);
    let neg = n < 0;
    let m: nat = if neg {
        (-n) as nat
    } else {
        n as nat
    };
    let p0: int = if neg {
        2
    } else {
        1
    };
    let d = decimal(m);
    lemma_decimal_len(m);
    assert(buf.len() == p0 + d.len() + 1);
    assert(buf.subrange(p0, p0 + d.len()) =~= d);
    assert(buf[0] == INT_START);
    lemma_scan_decimal(buf, 0, p0, neg, m);
    if neg {
        assert(buf[1] == MINUS);
        assert(int_scan(buf, 0, 1, false, 0, 0) == int_scan(buf, 0, 2, true, 0, 0));
    }
    assert(buf[p0 + d.len()] == END);
    assert(int_spec(buf, 0) == Ok::<(int, nat), DecodeError>((n as int, buf.len())));
    let after = push_item(initial_stack(), Val::Int(n as int));
    assert(step(buf, 0, initial_stack()) == Ok::<(int, Seq<_>), DecodeError>(
        (buf.len() as int, after),
    ));
    assert(after.last().items =~= seq![Val::Int(n as int)]);
    assert(run(buf, buf.len() as int, after) == Ok::<Seq<Val>, DecodeError>(
        seq![Val::Int(n as int)],
    ));
}

/// Two decodings of the same buffer give the same values, or the same error.
pub proof fn law_decode_deterministic(
    buf: Seq<u8>,
    r1: Result<Vec<BencodeValue>, DecodeError>,
    r2: Result<Vec<BencodeValue>, DecodeError>,
)
    requires
        decode_post(buf, r1),
        decode_post(buf, r2),
    ensures
        match (r1, r2) {
            (Ok(a), Ok(b)) => models(a@) == models(b@),
            (Err(e1), Err(e2)) => e1 == e2,
            _ => false,
        },
{
}

/// Dictionary entries whose keys strictly ascend.
pub open spec fn keys_ascending(e: Seq<(Seq<u8>, Val)>) -> bool {
    forall|i: int, j: int| 0 <= i < j < e.len() ==> key_lt(#[trigger] e[i].0, #[trigger] e[j].0)
}

/// A value tree whose integers fit in `i64` and whose dictionaries have
/// strictly ascending keys, all the way down.
pub open spec fn well_formed(v: Val) -> bool
    decreases v,
{
    match v {
        Val::Int(n) => i64::MIN <= n <= i64::MAX,
        Val::Bytes(_) => true,
        Val::List(items) => forall|i: int| 0 <= i < items.len() ==> well_formed(#[trigger] items[i]),
        Val::Dict(e) => keys_ascending(e) && forall|i: int|
            0 <= i < e.len() ==> well_formed(#[trigger] e[i].1),
    }
}

proof fn lemma_key_lt_transitive(a: Seq<u8>, b: Seq<u8>, c: Seq<u8>)
    requires
        key_lt(a, b),
        key_lt(b, c),
    ensures
        key_lt(a, c),
    decreases a.len(),
{
    if a.len() > 0 && b.len() > 0 && c.len() > 0 && a[0] == b[0] && b[0] == c[0] {
        lemma_key_lt_transitive(a.drop_first(), b.drop_first(), c.drop_first());
    }
}

proof fn lemma_key_lt_total(a: Seq<u8>, b: Seq<u8>)
    requires
        a != b,
    ensures
        key_lt(a, b) || key_lt(b, a),
    decreases a.len(),
{
    if a.len() > 0 && b.len() > 0 && a[0] == b[0] {
        if a.drop_first() == b.drop_first() {
            assert(a =~= seq![a[0]] + a.drop_first());
            assert(b =~= seq![b[0]] + b.drop_first());
        }
        lemma_key_lt_total(a.drop_first(), b.drop_first());
    } else if a.len() == 0 && b.len() == 0 {
        assert(a =~= b);
    }
}

proof fn lemma_dict_put_bound(s: Seq<(Seq<u8>, Val)>, k: Seq<u8>, v: Val, x: Seq<u8>)
    requires
        forall|i: int| 0 <= i < s.len() ==> key_lt(x, #[trigger] s[i].0),
        key_lt(x, k),
    ensures
        forall|i: int|
            0 <= i < dict_put(s, k, v).len() ==> key_lt(x, #[trigger] dict_put(s, k, v)[i].0),
    decreases s.len(),
{
    if s.len() > 0 && s[0].0 != k && !key_lt(k, s[0].0) {
        lemma_dict_put_bound(s.drop_first(), k, v, x);
        let p = dict_put(s, k, v);
        assert forall|i: int| 0 <= i < p.len() implies key_lt(x, #[trigger] p[i].0) by {
            if i > 0 {
                assert(p[i] == dict_put(s.drop_first(), k, v)[i - 1]);
            }
        }
    }
}

proof fn lemma_dict_put_ascending(s: Seq<(Seq<u8>, Val)>, k: Seq<u8>, v: Val)
    requires
        keys_ascending(s),
        forall|i: int| 0 <= i < s.len() ==> well_formed(#[trigger] s[i].1),
        well_formed(v),
    ensures
        keys_ascending(dict_put(s, k, v)),
        forall|i: int|
            0 <= i < dict_put(s, k, v).len() ==> well_formed(#[trigger] dict_put(s, k, v)[i].1),
    decreases s.len(),
{
    let p = dict_put(s, k, v);
    if s.len() == 0 {
    } else if s[0].0 == k {
        assert forall|i: int, j: int| 0 <= i < j < p.len() implies key_lt(
            #[trigger] p[i].0,
            #[trigger] p[j].0,
        ) by {
            assert(p[i].0 == s[i].0);
            assert(p[j].0 == s[j].0);
        }
    } else if key_lt(k, s[0].0) {
        assert forall|i: int, j: int| 0 <= i < j < p.len() implies key_lt(
            #[trigger] p[i].0,
            #[trigger] p[j].0,
        ) by {
            if i == 0 {
                if j > 1 {
                    lemma_key_lt_transitive(k, s[0].0, s[j - 1].0);
                }
            } else {
                assert(p[i] == s[i - 1]);
            }
        }
        assert forall|i: int| 0 <= i < p.len() implies well_formed(#[trigger] p[i].1) by {
            if i > 0 {
                assert(p[i] == s[i - 1]);
            }
        }
    } else {
        let rest = s.drop_first();
        lemma_key_lt_total(s[0].0, k);
        lemma_dict_put_ascending(rest, k, v);
        assert forall|i: int| 0 <= i < rest.len() implies key_lt(s[0].0, #[trigger] rest[i].0) by {
            assert(rest[i] == s[i + 1]);
        }
        lemma_dict_put_bound(rest, k, v, s[0].0);
        let q = dict_put(rest, k, v);
        assert forall|i: int, j: int| 0 <= i < j < p.len() implies key_lt(
            #[trigger] p[i].0,
            #[trigger] p[j].0,
        ) by {
            assert(p[j] == q[j - 1]);
            if i > 0 {
                assert(p[i] == q[i - 1]);
            }
        }
        assert forall|i: int| 0 <= i < p.len() implies well_formed(#[trigger] p[i].1) by {
            if i > 0 {
                assert(p[i] == q[i - 1]);
            }
        }
    }
}

proof fn lemma_dict_of_well_formed(items: Seq<Val>)
    requires
        dict_items_ok(items),
        forall|i: int| 0 <= i < items.len() ==> well_formed(#[trigger] items[i]),
    ensures
        well_formed(Val::Dict(dict_of(items))),
    decreases items.len(),
{
    if items.len() >= 2 {
        let n = items.len() - 2;
        let prefix = items.subrange(0, n);
        assert forall|j: int| 0 <= j < prefix.len() && j % 2 == 0 implies #[trigger] prefix[j] is Bytes by {
            assert(prefix[j] == items[j]);
        }
        assert forall|j: int| 0 <= j < prefix.len() implies well_formed(#[trigger] prefix[j]) by {
            assert(prefix[j] == items[j]);
        }
        lemma_dict_of_well_formed(prefix);
        assert(items[n] is Bytes);
        assert(well_formed(items[n + 1]));
        lemma_dict_put_ascending(dict_of(prefix), items[n]->Bytes_0, items[n + 1]);
    }
}

proof fn lemma_int_scan_in_range(buf: Seq<u8>, start: int, pos: int, neg: bool, digits: nat, val: int)
    requires
        i64::MIN <= val <= i64::MAX,
    ensures
        int_scan(buf, start, pos, neg, digits, val) matches Ok((n, _)) ==> i64::MIN <= n <= i64::MAX,
    decreases buf.len() - pos,
{
    if 0 <= pos < buf.len() {
        let c = buf[pos];
        let next = if neg {
            val * 10 - (c - DIGIT_ZERO)
        } else {
            val * 10 + (c - DIGIT_ZERO)
        };
        lemma_int_scan_in_range(buf, start, pos + 1, true, digits, val);
        if i64::MIN <= next <= i64::MAX {
            lemma_int_scan_in_range(buf, start, pos + 1, neg, digits + 1, next);
        }
    }
}

/// Every value gathered in every open scope is well formed.
pub open spec fn frames_well_formed(stack: Seq<Frame>) -> bool {
    forall|f: int, i: int|
        0 <= f < stack.len() && 0 <= i < stack[f].items.len() ==> well_formed(
            #[trigger] stack[f].items[i],
        )
}

proof fn lemma_push_item_well_formed(stack: Seq<Frame>, v: Val)
    requires
        stack.len() >= 1,
        frames_well_formed(stack),
        well_formed(v),
    ensures
        frames_well_formed(push_item(stack, v)),
{
    let p = push_item(stack, v);
    assert forall|f: int, i: int| 0 <= f < p.len() && 0 <= i < p[f].items.len() implies well_formed(
        #[trigger] p[f].items[i],
    ) by {
        if f == stack.len() - 1 && i == stack[f].items.len() {
        } else {
            assert(p[f].items[i] == stack[f].items[i]);
        }
    }
}

proof fn lemma_run_well_formed(buf: Seq<u8>, pos: int, stack: Seq<Frame>)
    requires
        stack.len() >= 1,
        stack[0].kind == ScopeType::Root,
        forall|j: int| 1 <= j < stack.len() ==> (#[trigger] stack[j]).kind != ScopeType::Root,
        frames_well_formed(stack),
    ensures
        run(buf, pos, stack) matches Ok(vs) ==> forall|i: int|
            0 <= i < vs.len() ==> well_formed(#[trigger] vs[i]),
    decreases buf.len() - pos,
{
    if 0 <= pos < buf.len() {
        lemma_step_advances(buf, pos, stack);
        let c = buf[pos];
        let top = stack.last();
        let rest = stack.drop_last();
        if c == INT_START {
            lemma_int_scan_in_range(buf, pos, pos + 1, false, 0, 0);
        } else if c == END && top.kind != ScopeType::Root {
            assert(frames_well_formed(rest));
            assert forall|i: int| 0 <= i < top.items.len() implies well_formed(#[trigger] top.items[i]) by {
                assert(stack[stack.len() - 1].items[i] == top.items[i]);
            }
            if top.kind == ScopeType::Dict && dict_items_ok(top.items) {
                lemma_dict_of_well_formed(top.items);
            }
        }
        match step(buf, pos, stack) {
            Ok((next, s)) => {
                if c == INT_START {
                    lemma_push_item_well_formed(stack, Val::Int(int_spec(buf, pos)->Ok_0.0));
                } else if is_digit(c) {
                    lemma_push_item_well_formed(stack, Val::Bytes(bytestr_spec(buf, pos)->Ok_0.0));
                } else if c == END {
                    if top.kind == ScopeType::List {
                        lemma_push_item_well_formed(rest, Val::List(top.items));
                    } else {
                        lemma_push_item_well_formed(rest, Val::Dict(dict_of(top.items)));
                    }
                } else {
                    assert(frames_well_formed(s));
                }
                assert(s[0].kind == ScopeType::Root);
                assert(forall|j: int| 1 <= j < s.len() ==> (#[trigger] s[j]).kind != ScopeType::Root);
                lemma_run_well_formed(buf, next, s);
            },
            Err(_) => {},
        }
    } else if stack.len() <= 1 {
        assert forall|i: int| 0 <= i < stack.last().items.len() implies well_formed(
            #[trigger] stack.last().items[i],
        ) by {
            assert(stack[stack.len() - 1].items[i] == stack.last().items[i]);
        }
    }
}

/// Whatever buffer is decoded, a successful result is a sequence of
/// well-formed value trees.
pub proof fn law_decode_well_formed(buf: Seq<u8>)
    ensures
        decode_spec(buf) matches Ok(vs) ==> forall|i: int|
            0 <= i < vs.len() ==> well_formed(#[trigger] vs[i]),
{
    lemma_run_well_formed(buf, 0, initial_stack());
}

} // verus!
